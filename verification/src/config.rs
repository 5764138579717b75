use vstd::prelude::*;

use crate::error::FluxgateError;
use crate::policy::{
    compiled_clauses, rule_compiles, rule_error_text, ClauseModel, PolicyMatcher,
};
use crate::text::trim_view;

verus! {

/// Lift an optional string to its view.
pub open spec fn opt_text(o: Option<String>) -> Option<Seq<char>> {
    match o {
        Some(s) => Some(s@),
        None => None,
    }
}

/// One typed request attribute value, carried in the canonical textual
/// form the engine matches and hashes on. Scalars are carried losslessly
/// (`Null`, `Bool`, text); numbers, arrays and objects are carried as the
/// stable serialized text the host produced for them.
#[derive(Debug)]
pub enum AttrValue {
    Null,
    Bool(bool),
    Number(String),
    Text(String),
    Array(String),
    Object(String),
}

pub enum AttrValueModel {
    Null,
    Bool(bool),
    Number(Seq<char>),
    Text(Seq<char>),
    Array(Seq<char>),
    Object(Seq<char>),
}

impl View for AttrValue {
    type V = AttrValueModel;

    open spec fn view(&self) -> AttrValueModel {
        match self {
            AttrValue::Null => AttrValueModel::Null,
            AttrValue::Bool(b) => AttrValueModel::Bool(*b),
            AttrValue::Number(t) => AttrValueModel::Number(t@),
            AttrValue::Text(t) => AttrValueModel::Text(t@),
            AttrValue::Array(t) => AttrValueModel::Array(t@),
            AttrValue::Object(t) => AttrValueModel::Object(t@),
        }
    }
}

/// The canonical textual form of an attribute value: `null`, `true` or
/// `false` for the unit and boolean scalars, and the carried text
/// otherwise.
pub open spec fn canon_of(v: AttrValueModel) -> Seq<char> {
    match v {
        AttrValueModel::Null => "null"@,
        AttrValueModel::Bool(b) => if b {
            "true"@
        } else {
            "false"@
        },
        AttrValueModel::Number(t) => t,
        AttrValueModel::Text(t) => t,
        AttrValueModel::Array(t) => t,
        AttrValueModel::Object(t) => t,
    }
}

impl AttrValue {
    /// The canonical textual form this value is matched and hashed on.
    pub fn canonical_text(&self) -> (r: String)
        ensures
            r@ == canon_of(self@),
    {
        match self {
            AttrValue::Null => "null".to_owned(),
            AttrValue::Bool(b) => if *b {
                "true".to_owned()
            } else {
                "false".to_owned()
            },
            AttrValue::Number(t) => t.clone(),
            AttrValue::Text(t) => t.clone(),
            AttrValue::Array(t) => t.clone(),
            AttrValue::Object(t) => t.clone(),
        }
    }
}

pub open spec fn header_pairs_view(v: Seq<(String, Option<String>)>) -> Seq<
    (Seq<char>, Option<Seq<char>>),
> {
    v.map_values(|p: (String, Option<String>)| (p.0@, opt_text(p.1)))
}

pub open spec fn attr_pairs_view(v: Seq<(String, AttrValue)>) -> Seq<(Seq<char>, AttrValueModel)> {
    v.map_values(|p: (String, AttrValue)| (p.0@, p.1@))
}

pub open spec fn pairs_view(v: Seq<(String, String)>) -> Seq<(Seq<char>, Seq<char>)> {
    v.map_values(|p: (String, String)| (p.0@, p.1@))
}

/// One inbound request to be checked: an optional source IP, an optional
/// route identifier, and insertion-ordered header and attribute listings.
#[derive(Debug, Default)]
pub struct CheckRequest {
    pub ip: Option<String>,
    pub route: Option<String>,
    pub headers: Option<Vec<(String, Option<String>)>>,
    pub attrs: Option<Vec<(String, AttrValue)>>,
}

#[verifier::ext_equal]
pub struct RequestModel {
    pub ip: Option<Seq<char>>,
    pub route: Option<Seq<char>>,
    pub headers: Option<Seq<(Seq<char>, Option<Seq<char>>)>>,
    pub attrs: Option<Seq<(Seq<char>, AttrValueModel)>>,
}

impl View for CheckRequest {
    type V = RequestModel;

    open spec fn view(&self) -> RequestModel {
        RequestModel {
            ip: opt_text(self.ip),
            route: opt_text(self.route),
            headers: match self.headers {
                Some(v) => Some(header_pairs_view(v@)),
                None => None,
            },
            attrs: match self.attrs {
                Some(v) => Some(attr_pairs_view(v@)),
                None => None,
            },
        }
    }
}

/// The per-policy outcome of one check.
#[derive(Clone, Copy, Debug, PartialEq, Eq)]
pub struct CheckDecision {
    pub allowed: bool,
    pub retry_after_ms: Option<u32>,
}

/// The aggregate outcome of one check: denied only if an enforcing policy
/// denied; the retry-after is the maximum over the enforcing denials; the
/// decision list holds every matching policy's decision in evaluation
/// order.
#[derive(Debug, PartialEq, Eq)]
pub struct CheckResult {
    pub allowed: bool,
    pub retry_after_ms: Option<u32>,
    pub decisions: Vec<(String, CheckDecision)>,
}

#[verifier::ext_equal]
pub struct ResultModel {
    pub allowed: bool,
    pub retry_after_ms: Option<u32>,
    pub decisions: Seq<(Seq<char>, CheckDecision)>,
}

pub open spec fn decision_pairs_view(v: Seq<(String, CheckDecision)>) -> Seq<
    (Seq<char>, CheckDecision),
> {
    v.map_values(|p: (String, CheckDecision)| (p.0@, p.1))
}

impl View for CheckResult {
    type V = ResultModel;

    open spec fn view(&self) -> ResultModel {
        ResultModel {
            allowed: self.allowed,
            retry_after_ms: self.retry_after_ms,
            decisions: decision_pairs_view(self.decisions@),
        }
    }
}

impl CheckResult {
    /// A denied aggregate result with the given retry-after and decisions.
    pub fn denied(retry_after_ms: Option<u32>, decisions: Vec<(String, CheckDecision)>) -> (r:
        CheckResult)
        ensures
            r@ == (ResultModel {
                allowed: false,
                retry_after_ms,
                decisions: decision_pairs_view(decisions@),
            }),
    {
        CheckResult { allowed: false, retry_after_ms, decisions }
    }
}

/// Whether a policy's decisions can deny the aggregate verdict. Absence
/// of an action defaults to enforcement.
#[derive(Clone, Copy, Debug, PartialEq, Eq, Structural)]
pub enum PolicyAction {
    Reject,
    Annotate,
}

/// One raw policy definition as supplied by the caller.
#[derive(Debug)]
pub struct FluxgatePolicy {
    pub id: String,
    pub match_rule: String,
    pub limit_per_second: u32,
    pub burst: u32,
    pub window_seconds: u32,
    pub action: Option<PolicyAction>,
}

#[verifier::ext_equal]
pub struct PolicyModel {
    pub id: Seq<char>,
    pub match_rule: Seq<char>,
    pub limit_per_second: u32,
    pub burst: u32,
    pub window_seconds: u32,
    pub action: Option<PolicyAction>,
}

impl View for FluxgatePolicy {
    type V = PolicyModel;

    open spec fn view(&self) -> PolicyModel {
        PolicyModel {
            id: self.id@,
            match_rule: self.match_rule@,
            limit_per_second: self.limit_per_second,
            burst: self.burst,
            window_seconds: self.window_seconds,
            action: self.action,
        }
    }
}

/// Whether decisions under this action can deny the aggregate verdict.
pub open spec fn enforces(action: Option<PolicyAction>) -> bool {
    match action {
        None => true,
        Some(PolicyAction::Reject) => true,
        Some(PolicyAction::Annotate) => false,
    }
}

/// A policy definition paired with its compiled matcher.
#[derive(Debug)]
pub struct CompiledPolicy {
    pub definition: FluxgatePolicy,
    pub matcher: PolicyMatcher,
}

#[verifier::ext_equal]
pub struct CompiledModel {
    pub definition: PolicyModel,
    pub clauses: Seq<ClauseModel>,
}

impl View for CompiledPolicy {
    type V = CompiledModel;

    open spec fn view(&self) -> CompiledModel {
        CompiledModel { definition: self.definition@, clauses: self.matcher@ }
    }
}

/// The construction payload: a policy source plus engine options. The
/// reserved sketch-related fields are accepted and carried but unused by
/// the present algorithm.
#[derive(Debug, Default)]
pub struct FluxgateInit {
    pub policies: Option<Vec<FluxgatePolicy>>,
    pub config_text: Option<String>,
    pub key_secret: Option<String>,
    pub slices: Option<u32>,
    pub sketch_width: Option<u32>,
    pub sketch_depth: Option<u32>,
    pub top_k: Option<u32>,
    pub shard_a_hot_capacity: Option<u32>,
    pub admission_hits_to_promote: Option<u32>,
}

#[verifier::ext_equal]
pub struct InitModel {
    pub policies: Option<Seq<PolicyModel>>,
    pub config_text: Option<Seq<char>>,
    pub key_secret: Option<Seq<char>>,
    pub slices: Option<u32>,
    pub sketch_width: Option<u32>,
    pub sketch_depth: Option<u32>,
    pub top_k: Option<u32>,
    pub shard_a_hot_capacity: Option<u32>,
    pub admission_hits_to_promote: Option<u32>,
}

pub open spec fn policies_view(v: Seq<FluxgatePolicy>) -> Seq<PolicyModel> {
    v.map_values(|p: FluxgatePolicy| p@)
}

impl View for FluxgateInit {
    type V = InitModel;

    open spec fn view(&self) -> InitModel {
        InitModel {
            policies: match self.policies {
                Some(v) => Some(policies_view(v@)),
                None => None,
            },
            config_text: opt_text(self.config_text),
            key_secret: opt_text(self.key_secret),
            slices: self.slices,
            sketch_width: self.sketch_width,
            sketch_depth: self.sketch_depth,
            top_k: self.top_k,
            shard_a_hot_capacity: self.shard_a_hot_capacity,
            admission_hits_to_promote: self.admission_hits_to_promote,
        }
    }
}

/// A validated, compiled configuration: the compiled policy list plus the
/// engine options.
#[derive(Debug)]
pub struct FluxgateConfig {
    pub policies: Vec<CompiledPolicy>,
    pub key_secret: Option<String>,
    pub slices: Option<u32>,
    pub sketch_width: Option<u32>,
    pub sketch_depth: Option<u32>,
    pub top_k: Option<u32>,
    pub shard_a_hot_capacity: Option<u32>,
    pub admission_hits_to_promote: Option<u32>,
}

#[verifier::ext_equal]
pub struct ConfigModel {
    pub policies: Seq<CompiledModel>,
    pub key_secret: Option<Seq<char>>,
    pub slices: Option<u32>,
    pub sketch_width: Option<u32>,
    pub sketch_depth: Option<u32>,
    pub top_k: Option<u32>,
    pub shard_a_hot_capacity: Option<u32>,
    pub admission_hits_to_promote: Option<u32>,
}

pub open spec fn compiled_view(v: Seq<CompiledPolicy>) -> Seq<CompiledModel> {
    v.map_values(|p: CompiledPolicy| p@)
}

impl View for FluxgateConfig {
    type V = ConfigModel;

    open spec fn view(&self) -> ConfigModel {
        ConfigModel {
            policies: compiled_view(self.policies@),
            key_secret: opt_text(self.key_secret),
            slices: self.slices,
            sketch_width: self.sketch_width,
            sketch_depth: self.sketch_depth,
            top_k: self.top_k,
            shard_a_hot_capacity: self.shard_a_hot_capacity,
            admission_hits_to_promote: self.admission_hits_to_promote,
        }
    }
}

/// The policy list of an init payload: the directly supplied policies, or
/// none.
pub open spec fn init_policies(init: InitModel) -> Seq<PolicyModel> {
    match init.policies {
        Some(v) => v,
        None => Seq::empty(),
    }
}

/// Whether the init payload carries a non-blank textual configuration
/// document. Parsing such a document is the host layer's concern; the
/// engine itself rejects it.
pub open spec fn has_config_text(init: InitModel) -> bool {
    match init.config_text {
        Some(t) => trim_view(t).len() > 0,
        None => false,
    }
}

/// Whether an init payload is accepted: no textual configuration
/// document, at least one policy, and every match rule compiles.
pub open spec fn init_ok(init: InitModel) -> bool {
    &&& !has_config_text(init)
    &&& init_policies(init).len() > 0
    &&& forall|k: int|
        0 <= k < init_policies(init).len() ==> rule_compiles(
            #[trigger] init_policies(init)[k].match_rule,
        )
}

/// The first policy whose match rule does not compile, or a blank
/// placeholder if every rule compiles.
pub open spec fn first_failing_policy(pols: Seq<PolicyModel>) -> PolicyModel
    decreases pols.len(),
{
    if pols.len() == 0 {
        PolicyModel {
            id: Seq::empty(),
            match_rule: Seq::empty(),
            limit_per_second: 0,
            burst: 0,
            window_seconds: 0,
            action: None,
        }
    } else if !rule_compiles(pols[0].match_rule) {
        pols[0]
    } else {
        first_failing_policy(pols.drop_first())
    }
}

proof fn lemma_first_failing_policy(pols: Seq<PolicyModel>, i: int)
    requires
        0 <= i < pols.len(),
        forall|k: int| 0 <= k < i ==> rule_compiles(#[trigger] pols[k].match_rule),
        !rule_compiles(pols[i].match_rule),
    ensures
        first_failing_policy(pols) == pols[i],
    decreases i,
{
    if i > 0 {
        lemma_first_failing_policy(pols.drop_first(), i - 1);
    }
}

/// The message a rejected init payload fails with: the textual-document
/// complaint, the empty-set complaint, or the first non-compiling rule's
/// message tagged with that policy's identifier.
pub open spec fn config_error_text(init: InitModel) -> Seq<char> {
    if has_config_text(init) {
        "configText provided but YAML support is disabled"@
    } else if init_policies(init).len() == 0 {
        "at least one policy must be provided"@
    } else {
        let p = first_failing_policy(init_policies(init));
        "policy "@ + p.id + " match parse error: "@ + rule_error_text(p.match_rule)
    }
}

/// The compiled configuration an init payload yields on success.
pub open spec fn config_of_init(init: InitModel) -> ConfigModel {
    ConfigModel {
        policies: Seq::new(
            init_policies(init).len(),
            |k: int|
                CompiledModel {
                    definition: init_policies(init)[k],
                    clauses: compiled_clauses(init_policies(init)[k].match_rule),
                },
        ),
        key_secret: init.key_secret,
        slices: init.slices,
        sketch_width: init.sketch_width,
        sketch_depth: init.sketch_depth,
        top_k: init.top_k,
        shard_a_hot_capacity: init.shard_a_hot_capacity,
        admission_hits_to_promote: init.admission_hits_to_promote,
    }
}

impl FluxgateInit {
    /// Validate and compile the payload. Fails when a textual
    /// configuration document is supplied (parsing one is the host
    /// layer's concern), when the policy list is empty, and when a match
    /// rule does not compile; the offending policy's identifier tags the
    /// message.
    #[verifier::loop_isolation(false)]
    pub fn into_config(self) -> (r: Result<FluxgateConfig, FluxgateError>)
        ensures
            r is Ok <==> init_ok(self@),
            r is Ok ==> r->Ok_0@ == config_of_init(self@),
            r is Err ==> (r->Err_0 matches FluxgateError::InvalidConfig(m) && m@
                == config_error_text(self@)),
    {
        let ghost init_model = self@;
        let ghost raw0 = init_policies(init_model);
        let FluxgateInit {
            policies,
            config_text,
            key_secret,
            slices,
            sketch_width,
            sketch_depth,
            top_k,
            shard_a_hot_capacity,
            admission_hits_to_promote,
        } = self;
        if let Some(text) = &config_text {
            if crate::text::trim(text.as_str()).unicode_len() > 0 {
                return Err(
                    FluxgateError::InvalidConfig(
                        "configText provided but YAML support is disabled".to_owned(),
                    ),
                );
            }
        }
        let mut raw: Vec<FluxgatePolicy> = match policies {
            Some(v) => v,
            None => Vec::new(),
        };
        if raw.len() == 0 {
            return Err(
                FluxgateError::InvalidConfig("at least one policy must be provided".to_owned()),
            );
        }
        let mut compiled: Vec<CompiledPolicy> = Vec::new();
        proof {
            assert(policies_view(raw@) =~= raw0);
            assert(policies_view(raw@) =~= raw0.skip(0));
        }
        while raw.len() > 0
            invariant
                raw0.len() == compiled@.len() + raw@.len(),
                policies_view(raw@) =~= raw0.skip(compiled@.len() as int),
                forall|k: int|
                    0 <= k < compiled@.len() ==> rule_compiles(#[trigger] raw0[k].match_rule),
                forall|k: int|
                    0 <= k < compiled@.len() ==> (#[trigger] compiled@[k])@ == (CompiledModel {
                        definition: raw0[k],
                        clauses: compiled_clauses(raw0[k].match_rule),
                    }),
            decreases raw@.len(),
        {
            let ghost prev = raw@;
            let ghost k = compiled@.len() as int;
            let policy = raw.remove(0);
            proof {
                assert(policies_view(prev)[0] == prev[0]@);
                assert(policy@ == raw0[k]);
                assert(policies_view(raw@) =~= policies_view(prev).drop_first());
                assert(policies_view(raw@) =~= raw0.skip(k + 1));
            }
            match PolicyMatcher::from_rule(policy.match_rule.as_str()) {
                Ok(matcher) => {
                    compiled.push(CompiledPolicy { definition: policy, matcher });
                },
                Err(err) => {
                    proof {
                        assert(!rule_compiles(init_policies(init_model)[k].match_rule));
                        lemma_first_failing_policy(raw0, k);
                    }
                    let msg = "policy ".to_owned().concat(policy.id.as_str()).concat(
                        " match parse error: ",
                    ).concat(err.as_str());
                    proof {
                        assert(msg@ == config_error_text(init_model));
                    }
                    return Err(FluxgateError::InvalidConfig(msg));
                },
            }
        }
        let result = FluxgateConfig {
            policies: compiled,
            key_secret,
            slices,
            sketch_width,
            sketch_depth,
            top_k,
            shard_a_hot_capacity,
            admission_hits_to_promote,
        };
        proof {
            let target = config_of_init(init_model);
            assert(forall|k: int|
                0 <= k < compiled@.len() ==> #[trigger] result@.policies[k] == (
                #[trigger] compiled@[k])@);
            assert(result@.policies =~= target.policies);
            assert(result@ =~= target);
        }
        Ok(result)
    }
}

} // verus!
