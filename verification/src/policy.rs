use vstd::prelude::*;

use crate::config::{
    attr_pairs_view, canon_of, header_pairs_view, opt_text, pairs_view, AttrValueModel,
    CheckRequest, RequestModel,
};
use crate::text::{
    find_char, find_from, split_tokens, str_eq, str_starts_with, tokens_of, trim, trim_view,
    views_of_strs,
};

verus! {

/// Which request field a clause examines.
#[derive(Clone, Copy, Debug, PartialEq, Eq, Structural)]
pub enum MatchKind {
    Ip,
    Route,
    Header,
    Attr,
}

/// The pattern half of a clause: match anything, require presence,
/// require equality with a literal, or require a literal prefix.
#[derive(Debug)]
pub enum MatchPattern {
    Any,
    Equals(String),
    Prefix(String),
    Exists,
}

#[verifier::ext_equal]
pub enum PatternModel {
    Any,
    Equals(Seq<char>),
    Prefix(Seq<char>),
    Exists,
}

impl View for MatchPattern {
    type V = PatternModel;

    open spec fn view(&self) -> PatternModel {
        match self {
            MatchPattern::Any => PatternModel::Any,
            MatchPattern::Equals(s) => PatternModel::Equals(s@),
            MatchPattern::Prefix(s) => PatternModel::Prefix(s@),
            MatchPattern::Exists => PatternModel::Exists,
        }
    }
}

/// One predicate of a match rule: a kind, the key it examines (fixed for
/// ip and route, the header or attribute name otherwise), and a pattern.
#[derive(Debug)]
pub struct MatchClause {
    pub kind: MatchKind,
    pub pattern: MatchPattern,
    pub key: String,
}

#[verifier::ext_equal]
pub struct ClauseModel {
    pub kind: MatchKind,
    pub pattern: PatternModel,
    pub key: Seq<char>,
}

impl View for MatchClause {
    type V = ClauseModel;

    open spec fn view(&self) -> ClauseModel {
        ClauseModel { kind: self.kind, pattern: self.pattern@, key: self.key@ }
    }
}

pub open spec fn clause_model_seq(v: Seq<MatchClause>) -> Seq<ClauseModel> {
    v.map_values(|c: MatchClause| c@)
}

/// A compiled match rule: the conjunction of its clauses.
#[derive(Debug)]
pub struct PolicyMatcher {
    clauses: Vec<MatchClause>,
}

impl View for PolicyMatcher {
    type V = Seq<ClauseModel>;

    closed spec fn view(&self) -> Seq<ClauseModel> {
        clause_model_seq(self.clauses@)
    }
}

/// The pattern a pattern text denotes: empty or `*` matches anything,
/// `?` requires presence, a text ending in `*` requires the prefix before
/// it, and any other text requires equality.
pub open spec fn pattern_of(s: Seq<char>) -> PatternModel {
    if s.len() == 0 || s == seq!['*'] {
        PatternModel::Any
    } else if s == seq!['?'] {
        PatternModel::Exists
    } else if s.last() == '*' {
        PatternModel::Prefix(s.drop_last())
    } else {
        PatternModel::Equals(s)
    }
}

/// The name and pattern of a header clause body: the text before the
/// first `=` names the header (trimmed), the text after it is the
/// pattern (trimmed); with no `=` the pattern matches anything.
pub open spec fn header_clause_of(rest: Seq<char>) -> (Seq<char>, PatternModel) {
    match find_from(rest, '=', 0) {
        Some(i) => (trim_view(rest.take(i)), pattern_of(trim_view(rest.skip(i + 1)))),
        None => (trim_view(rest), PatternModel::Any),
    }
}

/// The name and pattern of an attribute clause body: as for headers,
/// except that the name is taken as written.
pub open spec fn attr_clause_of(rest: Seq<char>) -> (Seq<char>, PatternModel) {
    match find_from(rest, '=', 0) {
        Some(i) => (rest.take(i), pattern_of(trim_view(rest.skip(i + 1)))),
        None => (rest, PatternModel::Any),
    }
}

/// The clause a rule token denotes, or none if its kind prefix is not
/// recognized.
pub open spec fn clause_of_token(tok: Seq<char>) -> Option<ClauseModel> {
    if "ip:"@.is_prefix_of(tok) {
        Some(ClauseModel { kind: MatchKind::Ip, pattern: pattern_of(tok.skip(3)), key: "ip"@ })
    } else if "route:"@.is_prefix_of(tok) {
        Some(
            ClauseModel { kind: MatchKind::Route, pattern: pattern_of(tok.skip(6)), key: "route"@ },
        )
    } else if "header:"@.is_prefix_of(tok) {
        Some(
            ClauseModel {
                kind: MatchKind::Header,
                pattern: header_clause_of(tok.skip(7)).1,
                key: header_clause_of(tok.skip(7)).0,
            },
        )
    } else if "attr:"@.is_prefix_of(tok) {
        Some(
            ClauseModel {
                kind: MatchKind::Attr,
                pattern: attr_clause_of(tok.skip(5)).1,
                key: attr_clause_of(tok.skip(5)).0,
            },
        )
    } else {
        None
    }
}

/// Whether a rule text compiles: it has at least one token and every
/// token denotes a clause.
pub open spec fn rule_compiles(rule: Seq<char>) -> bool {
    tokens_of(rule).len() > 0 && (forall|k: int|
        0 <= k < tokens_of(rule).len() ==> clause_of_token(#[trigger] tokens_of(rule)[k]) is Some)
}

/// The clause list a compiling rule text denotes.
pub open spec fn compiled_clauses(rule: Seq<char>) -> Seq<ClauseModel> {
    Seq::new(tokens_of(rule).len(), |k: int| clause_of_token(tokens_of(rule)[k]).unwrap())
}

/// The first token that denotes no clause, or empty if all do.
pub open spec fn first_bad_token(toks: Seq<Seq<char>>) -> Seq<char>
    decreases toks.len(),
{
    if toks.len() == 0 {
        Seq::empty()
    } else if clause_of_token(toks[0]) is None {
        toks[0]
    } else {
        first_bad_token(toks.drop_first())
    }
}

proof fn lemma_first_bad_token(toks: Seq<Seq<char>>, i: int)
    requires
        0 <= i < toks.len(),
        forall|k: int| 0 <= k < i ==> clause_of_token(#[trigger] toks[k]) is Some,
        clause_of_token(toks[i]) is None,
    ensures
        first_bad_token(toks) == toks[i],
    decreases i,
{
    if i > 0 {
        lemma_first_bad_token(toks.drop_first(), i - 1);
    }
}

/// The message a non-compiling rule text fails with: the empty-rule
/// complaint, or the unrecognized-token complaint naming the first token
/// that denotes no clause.
pub open spec fn rule_error_text(rule: Seq<char>) -> Seq<char> {
    if tokens_of(rule).len() == 0 {
        "policy match rule must contain at least one predicate"@
    } else {
        "unsupported matcher token: "@ + first_bad_token(tokens_of(rule))
    }
}

impl MatchPattern {
    /// Parse one pattern text. Never fails; the `Result` mirrors the
    /// clause parsers it is used by.
    pub fn parse(input: &str) -> (r: Result<MatchPattern, String>)
        ensures
            r is Ok,
            r->Ok_0@ == pattern_of(input@),
    {
        let n = input.unicode_len();
        if n == 0 {
            return Ok(MatchPattern::Any);
        }
        if n == 1 && input.get_char(0) == '*' {
            proof {
                assert(input@ =~= seq!['*']);
            }
            return Ok(MatchPattern::Any);
        }
        if n == 1 && input.get_char(0) == '?' {
            proof {
                assert(input@ =~= seq!['?']);
            }
            return Ok(MatchPattern::Exists);
        }
        proof {
            assert(seq!['*'].len() == 1 && seq!['*'][0] == '*');
            assert(seq!['?'].len() == 1 && seq!['?'][0] == '?');
            assert(input@ != seq!['*']);
            assert(input@ != seq!['?']);
        }
        if input.get_char(n - 1) == '*' {
            let prefix = input.substring_char(0, n - 1);
            proof {
                assert(prefix@ =~= input@.drop_last());
            }
            return Ok(MatchPattern::Prefix(prefix.to_owned()));
        }
        Ok(MatchPattern::Equals(input.to_owned()))
    }
}

/// Parse the body of a `header:` token into its name and pattern.
pub fn parse_header_clause(input: &str) -> (r: Result<(String, MatchPattern), String>)
    ensures
        r is Ok,
        r->Ok_0.0@ == header_clause_of(input@).0,
        r->Ok_0.1@ == header_clause_of(input@).1,
{
    let n = input.unicode_len();
    match find_char(input, '=') {
        Some(i) => {
            let name = trim(input.substring_char(0, i)).to_owned();
            let value = input.substring_char(i + 1, n);
            proof {
                assert(input@.subrange(0, i as int) =~= input@.take(i as int));
                assert(value@ =~= input@.skip(i + 1));
            }
            let pattern = MatchPattern::parse(trim(value)).unwrap();
            Ok((name, pattern))
        },
        None => {
            let name = trim(input).to_owned();
            Ok((name, MatchPattern::Any))
        },
    }
}

/// Parse the body of an `attr:` token into its name and pattern.
pub fn parse_attr_clause(input: &str) -> (r: Result<(String, MatchPattern), String>)
    ensures
        r is Ok,
        r->Ok_0.0@ == attr_clause_of(input@).0,
        r->Ok_0.1@ == attr_clause_of(input@).1,
{
    let n = input.unicode_len();
    match find_char(input, '=') {
        Some(i) => {
            let name = input.substring_char(0, i).to_owned();
            let value = input.substring_char(i + 1, n);
            proof {
                assert(name@ =~= input@.take(i as int));
                assert(value@ =~= input@.skip(i + 1));
            }
            let pattern = MatchPattern::parse(trim(value)).unwrap();
            Ok((name, pattern))
        },
        None => Ok((input.to_owned(), MatchPattern::Any)),
    }
}

impl PolicyMatcher {
    /// Compile a rule text: split it into whitespace-separated tokens and
    /// parse each as a clause. Fails when a token's kind prefix is not
    /// recognized, naming that token, or when the rule has no token at
    /// all.
    pub fn from_rule(rule: &str) -> (r: Result<PolicyMatcher, String>)
        ensures
            r is Ok <==> rule_compiles(rule@),
            r is Ok ==> r->Ok_0@ == compiled_clauses(rule@),
            r is Err ==> r->Err_0@ == rule_error_text(rule@),
    {
        let toks = split_tokens(rule);
        let mut clauses: Vec<MatchClause> = Vec::new();
        let mut idx: usize = 0;
        while idx < toks.len()
            invariant
                views_of_strs(toks@) == tokens_of(rule@),
                0 <= idx <= toks@.len(),
                clauses@.len() == idx,
                forall|k: int|
                    0 <= k < idx ==> clause_of_token(#[trigger] tokens_of(rule@)[k]) is Some,
                forall|k: int|
                    0 <= k < idx ==> (#[trigger] clauses@[k])@ == clause_of_token(
                        tokens_of(rule@)[k],
                    ).unwrap(),
            decreases toks@.len() - idx,
        {
            let tok: &String = &toks[idx];
            proof {
                assert(tok@ == views_of_strs(toks@)[idx as int]);
                reveal_strlit("ip:");
                reveal_strlit("route:");
                reveal_strlit("header:");
                reveal_strlit("attr:");
            }
            let n = tok.as_str().unicode_len();
            let clause: MatchClause;
            if str_starts_with(tok.as_str(), "ip:") {
                let rest = tok.as_str().substring_char(3, n);
                proof {
                    assert(rest@ =~= tok@.skip(3));
                }
                let pattern = MatchPattern::parse(rest).unwrap();
                clause = MatchClause { kind: MatchKind::Ip, pattern, key: "ip".to_owned() };
            } else if str_starts_with(tok.as_str(), "route:") {
                let rest = tok.as_str().substring_char(6, n);
                proof {
                    assert(rest@ =~= tok@.skip(6));
                }
                let pattern = MatchPattern::parse(rest).unwrap();
                clause = MatchClause { kind: MatchKind::Route, pattern, key: "route".to_owned() };
            } else if str_starts_with(tok.as_str(), "header:") {
                let rest = tok.as_str().substring_char(7, n);
                proof {
                    assert(rest@ =~= tok@.skip(7));
                }
                let (name, pattern) = parse_header_clause(rest).unwrap();
                clause = MatchClause { kind: MatchKind::Header, pattern, key: name };
            } else if str_starts_with(tok.as_str(), "attr:") {
                let rest = tok.as_str().substring_char(5, n);
                proof {
                    assert(rest@ =~= tok@.skip(5));
                }
                let (name, pattern) = parse_attr_clause(rest).unwrap();
                clause = MatchClause { kind: MatchKind::Attr, pattern, key: name };
            } else {
                proof {
                    lemma_first_bad_token(tokens_of(rule@), idx as int);
                }
                return Err("unsupported matcher token: ".to_owned().concat(tok.as_str()));
            }
            proof {
                assert(clause@ == clause_of_token(tokens_of(rule@)[idx as int]).unwrap());
            }
            clauses.push(clause);
            idx += 1;
        }
        if clauses.len() == 0 {
            return Err("policy match rule must contain at least one predicate".to_owned());
        }
        let m = PolicyMatcher { clauses };
        proof {
            assert(forall|k: int|
                0 <= k < m@.len() ==> #[trigger] m@[k] == (#[trigger] clauses@[k])@);
            assert(m@ =~= compiled_clauses(rule@));
        }
        Ok(m)
    }
}

/// Apply a pattern to an optionally present value: the captured value on
/// a match, or none. Every pattern requires the value to be present;
/// `Any` and `Exists` put no constraint on its content.
pub open spec fn match_value_spec(pattern: PatternModel, value: Option<Seq<char>>) -> Option<
    Seq<char>,
> {
    match pattern {
        PatternModel::Any => value,
        PatternModel::Exists => value,
        PatternModel::Equals(expected) => match value {
            Some(v) => if v == expected {
                Some(v)
            } else {
                None
            },
            None => None,
        },
        PatternModel::Prefix(prefix) => match value {
            Some(v) => if prefix.is_prefix_of(v) {
                Some(v)
            } else {
                None
            },
            None => None,
        },
    }
}

/// Apply a pattern to an optionally present value.
pub fn match_value(pattern: &MatchPattern, value: Option<String>) -> (r: Option<String>)
    ensures
        opt_text(r) == match_value_spec(pattern@, opt_text(value)),
{
    match pattern {
        MatchPattern::Any => value,
        MatchPattern::Exists => value,
        MatchPattern::Equals(expected) => match value {
            Some(v) => if str_eq(v.as_str(), expected.as_str()) {
                Some(v)
            } else {
                None
            },
            None => None,
        },
        MatchPattern::Prefix(prefix) => match value {
            Some(v) => if str_starts_with(v.as_str(), prefix.as_str()) {
                Some(v)
            } else {
                None
            },
            None => None,
        },
    }
}

/// The value of the first pair whose key is `key`, if any.
pub open spec fn assoc_find<V>(pairs: Seq<(Seq<char>, V)>, key: Seq<char>) -> Option<V>
    decreases pairs.len(),
{
    if pairs.len() == 0 {
        None
    } else if pairs[0].0 == key {
        Some(pairs[0].1)
    } else {
        assoc_find(pairs.drop_first(), key)
    }
}

/// The request value a clause examines: the IP, the route, the named
/// header (a present header with a null value counts as absent), or the
/// named attribute's canonical text.
pub open spec fn source_value(req: RequestModel, clause: ClauseModel) -> Option<Seq<char>> {
    match clause.kind {
        MatchKind::Ip => req.ip,
        MatchKind::Route => req.route,
        MatchKind::Header => match req.headers {
            Some(hs) => match assoc_find(hs, clause.key) {
                Some(v) => v,
                None => None,
            },
            None => None,
        },
        MatchKind::Attr => match req.attrs {
            Some(ats) => match assoc_find(ats, clause.key) {
                Some(v) => Some(canon_of(v)),
                None => None,
            },
            None => None,
        },
    }
}

/// Insert a captured pair: replace the value in place if the key is
/// already present, else append.
pub open spec fn upsert<V>(
    pairs: Seq<(Seq<char>, V)>,
    key: Seq<char>,
    value: V,
) -> Seq<(Seq<char>, V)>
    decreases pairs.len(),
{
    if pairs.len() == 0 {
        seq![(key, value)]
    } else if pairs[0].0 == key {
        seq![(key, value)] + pairs.drop_first()
    } else {
        seq![pairs[0]] + upsert(pairs.drop_first(), key, value)
    }
}

pub(crate) proof fn lemma_upsert_found<V>(pairs: Seq<(Seq<char>, V)>, key: Seq<char>, value: V, i: int)
    requires
        0 <= i < pairs.len(),
        pairs[i].0 == key,
        forall|k: int| 0 <= k < i ==> pairs[k].0 != key,
    ensures
        upsert(pairs, key, value) == pairs.update(i, (key, value)),
    decreases i,
{
    if i == 0 {
        assert(upsert(pairs, key, value) =~= pairs.update(0, (key, value)));
    } else {
        lemma_upsert_found(pairs.drop_first(), key, value, i - 1);
        assert(pairs.drop_first().update(i - 1, (key, value)) =~= pairs.update(
            i,
            (key, value),
        ).drop_first());
        assert(upsert(pairs, key, value) =~= pairs.update(i, (key, value)));
    }
}

pub(crate) proof fn lemma_upsert_absent<V>(pairs: Seq<(Seq<char>, V)>, key: Seq<char>, value: V)
    requires
        forall|k: int| 0 <= k < pairs.len() ==> pairs[k].0 != key,
    ensures
        upsert(pairs, key, value) == pairs.push((key, value)),
    decreases pairs.len(),
{
    if pairs.len() == 0 {
        assert(upsert(pairs, key, value) =~= pairs.push((key, value)));
    } else {
        assert(forall|k: int|
            0 <= k < pairs.drop_first().len() ==> pairs.drop_first()[k].0 != key);
        lemma_upsert_absent(pairs.drop_first(), key, value);
        assert(upsert(pairs, key, value) =~= pairs.push((key, value)));
    }
}

/// Whether some pair of the listing carries the given key.
pub open spec fn has_pair_key<V>(pairs: Seq<(Seq<char>, V)>, key: Seq<char>) -> bool {
    exists|j: int| 0 <= j < pairs.len() && pairs[j].0 == key
}

/// An upsert leaves its own key in the listing.
pub(crate) proof fn lemma_upsert_adds_key<V>(pairs: Seq<(Seq<char>, V)>, key: Seq<char>, value: V)
    ensures
        has_pair_key(upsert(pairs, key, value), key),
    decreases pairs.len(),
{
    if pairs.len() == 0 || pairs[0].0 == key {
        assert(upsert(pairs, key, value)[0].0 == key);
    } else {
        lemma_upsert_adds_key(pairs.drop_first(), key, value);
        let j = choose|j: int|
            0 <= j < upsert(pairs.drop_first(), key, value).len() && upsert(
                pairs.drop_first(),
                key,
                value,
            )[j].0 == key;
        assert(upsert(pairs, key, value)[j + 1].0 == key);
    }
}

/// An upsert never drops a key already present.
pub(crate) proof fn lemma_upsert_keeps_keys<V>(
    pairs: Seq<(Seq<char>, V)>,
    key: Seq<char>,
    value: V,
    other: Seq<char>,
)
    requires
        has_pair_key(pairs, other),
    ensures
        has_pair_key(upsert(pairs, key, value), other),
    decreases pairs.len(),
{
    let j = choose|j: int| 0 <= j < pairs.len() && pairs[j].0 == other;
    if pairs[0].0 == key {
        if j == 0 {
            assert(upsert(pairs, key, value)[0].0 == key);
        } else {
            assert(upsert(pairs, key, value)[j].0 == other);
        }
    } else {
        if j == 0 {
            assert(upsert(pairs, key, value)[0].0 == other);
        } else {
            assert(pairs.drop_first()[j - 1].0 == other);
            lemma_upsert_keeps_keys(pairs.drop_first(), key, value, other);
            let j2 = choose|j2: int|
                0 <= j2 < upsert(pairs.drop_first(), key, value).len() && upsert(
                    pairs.drop_first(),
                    key,
                    value,
                )[j2].0 == other;
            assert(upsert(pairs, key, value)[j2 + 1].0 == other);
        }
    }
}

/// Evaluate clauses left to right against a request, accumulating the
/// captured map; none as soon as a clause fails to match.
pub open spec fn eval_clauses(
    clauses: Seq<ClauseModel>,
    req: RequestModel,
    acc: Seq<(Seq<char>, Seq<char>)>,
) -> Option<Seq<(Seq<char>, Seq<char>)>>
    decreases clauses.len(),
{
    if clauses.len() == 0 {
        Some(acc)
    } else {
        match match_value_spec(clauses[0].pattern, source_value(req, clauses[0])) {
            None => None,
            Some(cap) => eval_clauses(
                clauses.drop_first(),
                req,
                upsert(acc, clauses[0].key, cap),
            ),
        }
    }
}

/// The captured map a matcher yields on a request, or none if any clause
/// fails to match.
pub open spec fn matcher_eval(clauses: Seq<ClauseModel>, req: RequestModel) -> Option<
    Seq<(Seq<char>, Seq<char>)>,
> {
    eval_clauses(clauses, req, Seq::empty())
}

fn header_lookup(headers: &Vec<(String, Option<String>)>, key: &str) -> (r: Option<String>)
    ensures
        opt_text(r) == (match assoc_find(header_pairs_view(headers@), key@) {
            Some(v) => v,
            None => None,
        }),
{
    let ghost hv = header_pairs_view(headers@);
    let mut i: usize = 0;
    proof {
        assert(hv.skip(0) =~= hv);
    }
    while i < headers.len()
        invariant
            0 <= i <= headers@.len(),
            hv == header_pairs_view(headers@),
            assoc_find(hv, key@) == assoc_find(hv.skip(i as int), key@),
        decreases headers@.len() - i,
    {
        proof {
            assert(hv.skip(i as int)[0] == hv[i as int]);
            assert(hv.skip(i as int).drop_first() =~= hv.skip(i + 1));
        }
        if str_eq(headers[i].0.as_str(), key) {
            return match &headers[i].1 {
                Some(s) => Some(s.clone()),
                None => None,
            };
        }
        i += 1;
    }
    None
}

fn attr_lookup(attrs: &Vec<(String, crate::config::AttrValue)>, key: &str) -> (r: Option<String>)
    ensures
        opt_text(r) == (match assoc_find(attr_pairs_view(attrs@), key@) {
            Some(v) => Some(canon_of(v)),
            None => None,
        }),
{
    let ghost av = attr_pairs_view(attrs@);
    let mut i: usize = 0;
    proof {
        assert(av.skip(0) =~= av);
    }
    while i < attrs.len()
        invariant
            0 <= i <= attrs@.len(),
            av == attr_pairs_view(attrs@),
            assoc_find(av, key@) == assoc_find(av.skip(i as int), key@),
        decreases attrs@.len() - i,
    {
        proof {
            assert(av.skip(i as int)[0] == av[i as int]);
            assert(av.skip(i as int).drop_first() =~= av.skip(i + 1));
        }
        if str_eq(attrs[i].0.as_str(), key) {
            return Some(attrs[i].1.canonical_text());
        }
        i += 1;
    }
    None
}

fn upsert_pair(pairs: &mut Vec<(String, String)>, key: &String, value: String)
    ensures
        pairs_view(final(pairs)@) == upsert(pairs_view(old(pairs)@), key@, value@),
{
    let ghost pv = pairs_view(old(pairs)@);
    let mut i: usize = 0;
    while i < pairs.len()
        invariant
            0 <= i <= pairs@.len(),
            pairs@ == old(pairs)@,
            pv == pairs_view(pairs@),
            forall|k: int| 0 <= k < i ==> pv[k].0 != key@,
        decreases pairs@.len() - i,
    {
        proof {
            assert(pv[i as int] == (pairs@[i as int].0@, pairs@[i as int].1@));
        }
        if str_eq(pairs[i].0.as_str(), key.as_str()) {
            pairs.remove(i);
            pairs.insert(i, (key.clone(), value));
            proof {
                lemma_upsert_found(pv, key@, value@, i as int);
                assert(pairs_view(pairs@) =~= pv.update(i as int, (key@, value@)));
            }
            return ;
        }
        i += 1;
    }
    pairs.push((key.clone(), value));
    proof {
        lemma_upsert_absent(pv, key@, value@);
        assert(pairs_view(pairs@) =~= pv.push((key@, value@)));
    }
}

impl PolicyMatcher {
    /// The compiled clause list, for serialization.
    pub fn clause_list(&self) -> (r: &Vec<MatchClause>)
        ensures
            clause_model_seq(r@) == self@,
    {
        &self.clauses
    }

    /// Rebuild a matcher from an already compiled clause list, as a
    /// snapshot decoder does. No validation happens here: the clauses
    /// are taken as stored, exactly as the compiling constructor left
    /// them.
    pub fn from_clauses(clauses: Vec<MatchClause>) -> (r: PolicyMatcher)
        ensures
            r@ == clause_model_seq(clauses@),
    {
        PolicyMatcher { clauses }
    }

    /// Evaluate this matcher against a request: the captured map of
    /// clause keys to matched values, or none if any clause fails.
    pub fn matches(&self, request: &CheckRequest) -> (r: Option<Vec<(String, String)>>)
        ensures
            match r {
                Some(v) => matcher_eval(self@, request@) == Some(pairs_view(v@)),
                None => matcher_eval(self@, request@) is None,
            },
    {
        let mut captured: Vec<(String, String)> = Vec::new();
        let mut i: usize = 0;
        proof {
            assert(self@.skip(0) =~= self@);
        }
        while i < self.clauses.len()
            invariant
                0 <= i <= self.clauses@.len(),
                self@.len() == self.clauses@.len(),
                eval_clauses(self@, request@, Seq::empty()) == eval_clauses(
                    self@.skip(i as int),
                    request@,
                    pairs_view(captured@),
                ),
            decreases self.clauses@.len() - i,
        {
            let clause = &self.clauses[i];
            proof {
                assert(clause@ == self@[i as int]);
                assert(self@.skip(i as int)[0] == self@[i as int]);
                assert(self@.skip(i as int).drop_first() =~= self@.skip(i + 1));
            }
            let source: Option<String> = match clause.kind {
                MatchKind::Ip => match &request.ip {
                    Some(s) => Some(s.clone()),
                    None => None,
                },
                MatchKind::Route => match &request.route {
                    Some(s) => Some(s.clone()),
                    None => None,
                },
                MatchKind::Header => match &request.headers {
                    Some(hs) => header_lookup(hs, clause.key.as_str()),
                    None => None,
                },
                MatchKind::Attr => match &request.attrs {
                    Some(ats) => attr_lookup(ats, clause.key.as_str()),
                    None => None,
                },
            };
            proof {
                assert(opt_text(source) == source_value(request@, clause@));
            }
            match match_value(&clause.pattern, source) {
                Some(cap) => {
                    upsert_pair(&mut captured, &clause.key, cap);
                },
                None => {
                    return None;
                },
            }
            i += 1;
        }
        proof {
            assert(self@.skip(i as int) =~= Seq::<ClauseModel>::empty());
        }
        Some(captured)
    }
}

} // verus!
