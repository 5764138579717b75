use vstd::prelude::*;

use crate::config::{CompiledModel, CompiledPolicy, FluxgatePolicy, PolicyAction, PolicyModel};
use crate::error::FluxgateError;
use crate::gcra::TokenBucket;
use crate::key_builder::KeyBuilder;
use crate::limiter::{engine_wf, EngineModel, Fluxgate, PolicyState, PolicyStateModel};
use crate::metrics::Metrics;
use crate::policy::{ClauseModel, MatchClause, MatchKind, MatchPattern, PatternModel, PolicyMatcher};
use vstd::slice::slice_subrange;
use vstd::string::StrSliceExecFns;
use vstd::utf8::{decode_utf8, encode_utf8, valid_utf8};

verus! {

// The snapshot wire format. Every integer is eight bytes little endian;
// strings carry their UTF-8 byte length first; every variant tag is one
// byte; every list carries its element count first. A snapshot is the
// full engine state in this form, and decoding accepts exactly the
// streams that encoding produces.

#[verifier::opaque]
pub open spec fn enc_u64(x: u64) -> Seq<u8> {
    seq![
        x as u8,
        (x >> 8) as u8,
        (x >> 16) as u8,
        (x >> 24) as u8,
        (x >> 32) as u8,
        (x >> 40) as u8,
        (x >> 48) as u8,
        (x >> 56) as u8,
    ]
}

pub open spec fn dec_u64(b: Seq<u8>, i: int) -> Option<(u64, int)> {
    if 0 <= i && i + 8 <= b.len() {
        Some(
            (
                (b[i] as u64) | (b[i + 1] as u64) << 8 | (b[i + 2] as u64) << 16 | (b[i + 3]
                    as u64) << 24 | (b[i + 4] as u64) << 32 | (b[i + 5] as u64) << 40 | (b[i + 6]
                    as u64) << 48 | (b[i + 7] as u64) << 56,
                i + 8,
            ),
        )
    } else {
        None
    }
}

proof fn lemma_u64_bytes(x: u64)
    ensures
        ((x as u8) as u64) | (((x >> 8) as u8) as u64) << 8 | (((x >> 16) as u8) as u64) << 16 | ((
        (x >> 24) as u8) as u64) << 24 | (((x >> 32) as u8) as u64) << 32 | (((x >> 40) as u8)
            as u64) << 40 | (((x >> 48) as u8) as u64) << 48 | (((x >> 56) as u8) as u64) << 56
            == x,
{
    assert(((x as u8) as u64) | (((x >> 8) as u8) as u64) << 8 | (((x >> 16) as u8) as u64) << 16
        | (((x >> 24) as u8) as u64) << 24 | (((x >> 32) as u8) as u64) << 32 | (((x >> 40) as u8)
        as u64) << 40 | (((x >> 48) as u8) as u64) << 48 | (((x >> 56) as u8) as u64) << 56 == x)
        by (bit_vector);
}

proof fn lemma_dec_enc_u64(x: u64, pre: Seq<u8>, suf: Seq<u8>)
    ensures
        dec_u64(pre + enc_u64(x) + suf, pre.len() as int) == Some(
            (x, (pre.len() + enc_u64(x).len()) as int),
        ),
{
    reveal(enc_u64);
    let b = pre + enc_u64(x) + suf;
    let i = pre.len() as int;
    assert(b[i] == x as u8);
    assert(b[i + 1] == (x >> 8) as u8);
    assert(b[i + 2] == (x >> 16) as u8);
    assert(b[i + 3] == (x >> 24) as u8);
    assert(b[i + 4] == (x >> 32) as u8);
    assert(b[i + 5] == (x >> 40) as u8);
    assert(b[i + 6] == (x >> 48) as u8);
    assert(b[i + 7] == (x >> 56) as u8);
    lemma_u64_bytes(x);
}

fn wr_u64(buf: &mut Vec<u8>, x: u64)
    ensures
        final(buf)@ == old(buf)@ + enc_u64(x),
{
    proof { reveal(enc_u64); }
    buf.push(x as u8);
    buf.push((x >> 8) as u8);
    buf.push((x >> 16) as u8);
    buf.push((x >> 24) as u8);
    buf.push((x >> 32) as u8);
    buf.push((x >> 40) as u8);
    buf.push((x >> 48) as u8);
    buf.push((x >> 56) as u8);
    proof {
        assert(buf@ =~= old(buf)@ + enc_u64(x));
    }
}

fn rd_u64(b: &[u8], i: usize) -> (r: Option<(u64, usize)>)
    ensures
        match r {
            Some(p) => dec_u64(b@, i as int) == Some((p.0, p.1 as int)) && i < p.1 <= b@.len(),
            None => dec_u64(b@, i as int) is None,
        },
{
    if i < b.len() && b.len() - i >= 8 {
        let x = (b[i] as u64) | (b[i + 1] as u64) << 8 | (b[i + 2] as u64) << 16 | (b[i + 3]
            as u64) << 24 | (b[i + 4] as u64) << 32 | (b[i + 5] as u64) << 40 | (b[i + 6] as u64)
            << 48 | (b[i + 7] as u64) << 56;
        Some((x, i + 8))
    } else {
        None
    }
}

pub open spec fn enc_u8(t: u8) -> Seq<u8> {
    seq![t]
}

pub open spec fn dec_u8(b: Seq<u8>, i: int) -> Option<(u8, int)> {
    if 0 <= i && i + 1 <= b.len() {
        Some((b[i], i + 1))
    } else {
        None
    }
}

fn rd_u8(b: &[u8], i: usize) -> (r: Option<(u8, usize)>)
    ensures
        match r {
            Some(p) => dec_u8(b@, i as int) == Some((p.0, p.1 as int)) && i < p.1 <= b@.len(),
            None => dec_u8(b@, i as int) is None,
        },
{
    if i < b.len() {
        Some((b[i], i + 1))
    } else {
        None
    }
}

#[verifier::opaque]
pub open spec fn enc_opt_u32(o: Option<u32>) -> Seq<u8> {
    match o {
        None => enc_u8(0),
        Some(v) => enc_u8(1) + enc_u64(v as u64),
    }
}

pub open spec fn dec_opt_u32(b: Seq<u8>, i: int) -> Option<(Option<u32>, int)> {
    match dec_u8(b, i) {
        None => None,
        Some((t, j)) => if t == 0 {
            Some((None, j))
        } else if t == 1 {
            match dec_u64(b, j) {
                None => None,
                Some((x, k)) => if x <= u32::MAX as u64 {
                    Some((Some(x as u32), k))
                } else {
                    None
                },
            }
        } else {
            None
        },
    }
}

proof fn lemma_dec_enc_opt_u32(o: Option<u32>, pre: Seq<u8>, suf: Seq<u8>)
    ensures
        dec_opt_u32(pre + enc_opt_u32(o) + suf, pre.len() as int) == Some(
            (o, (pre.len() + enc_opt_u32(o).len()) as int),
        ),
{
    reveal(enc_opt_u32);
    let b = pre + enc_opt_u32(o) + suf;
    match o {
        None => {
            assert(b[pre.len() as int] == 0u8);
        },
        Some(v) => {
            assert(b[pre.len() as int] == 1u8);
            let pre1 = pre + enc_u8(1);
            assert(b =~= pre1 + enc_u64(v as u64) + suf);
            lemma_dec_enc_u64(v as u64, pre1, suf);
        },
    }
}

fn wr_opt_u32(buf: &mut Vec<u8>, o: &Option<u32>)
    ensures
        final(buf)@ == old(buf)@ + enc_opt_u32(*o),
{
    proof { reveal(enc_opt_u32); }
    match o {
        None => {
            buf.push(0);
            proof {
                assert(buf@ =~= old(buf)@ + enc_opt_u32(None));
            }
        },
        Some(v) => {
            buf.push(1);
            wr_u64(buf, *v as u64);
            proof {
                assert(buf@ =~= old(buf)@ + enc_opt_u32(Some(*v)));
            }
        },
    }
}

fn rd_opt_u32(b: &[u8], i: usize) -> (r: Option<(Option<u32>, usize)>)
    ensures
        match r {
            Some(p) => dec_opt_u32(b@, i as int) == Some((p.0, p.1 as int)) && i < p.1 <= b@.len(),
            None => dec_opt_u32(b@, i as int) is None,
        },
{
    match rd_u8(b, i) {
        None => None,
        Some((t, j)) => if t == 0 {
            Some((None, j))
        } else if t == 1 {
            match rd_u64(b, j) {
                None => None,
                Some((x, k)) => if x <= u32::MAX as u64 {
                    Some((Some(x as u32), k))
                } else {
                    None
                },
            }
        } else {
            None
        },
    }
}

#[verifier::opaque]
pub open spec fn enc_str(s: Seq<char>) -> Seq<u8> {
    enc_u64(encode_utf8(s).len() as u64) + encode_utf8(s)
}

pub open spec fn dec_str(b: Seq<u8>, i: int) -> Option<(Seq<char>, int)> {
    match dec_u64(b, i) {
        None => None,
        Some((n, j)) => if j + n <= b.len() && valid_utf8(b.subrange(j, j + n)) {
            Some((decode_utf8(b.subrange(j, j + n)), j + n))
        } else {
            None
        },
    }
}

/// Whether a string is small enough for its byte length to ride in one
/// integer field.
pub open spec fn str_fits(s: Seq<char>) -> bool {
    encode_utf8(s).len() <= u64::MAX
}

proof fn lemma_dec_enc_str(s: Seq<char>, pre: Seq<u8>, suf: Seq<u8>)
    requires
        str_fits(s),
    ensures
        dec_str(pre + enc_str(s) + suf, pre.len() as int) == Some(
            (s, (pre.len() + enc_str(s).len()) as int),
        ),
{
    reveal(enc_str);
    broadcast use vstd::utf8::encode_utf8_valid_utf8, vstd::utf8::encode_utf8_decode_utf8;

    let u = encode_utf8(s);
    let n = u.len() as u64;
    let b = pre + enc_str(s) + suf;
    assert(b =~= pre + enc_u64(n) + (u + suf));
    lemma_dec_enc_u64(n, pre, u + suf);
    assert(dec_u64(b, pre.len() as int) == Some((n, (pre.len() + 8) as int)));
    assert(b.subrange(pre.len() as int + 8, pre.len() + 8 + n as int) =~= u);
}

/// Relies on std's `str::from_utf8`: it accepts exactly the valid UTF-8
/// byte sequences, and decodes them to the character sequence whose
/// encoding the input is.
#[verifier::external_body]
fn bytes_to_string(v: &[u8]) -> (r: Option<String>)
    ensures
        r is Some <==> valid_utf8(v@),
        r is Some ==> r.unwrap()@ == decode_utf8(v@),
{
    match std::str::from_utf8(v) {
        Ok(s) => Some(s.to_owned()),
        Err(_) => None,
    }
}

fn wr_str(buf: &mut Vec<u8>, s: &str)
    ensures
        final(buf)@ == old(buf)@ + enc_str(s@),
{
    proof { reveal(enc_str); }
    let bytes = s.as_bytes();
    wr_u64(buf, bytes.len() as u64);
    buf.extend_from_slice(bytes);
    proof {
        assert(buf@ =~= old(buf)@ + enc_str(s@));
    }
}

fn rd_str(b: &[u8], i: usize) -> (r: Option<(String, usize)>)
    ensures
        match r {
            Some(p) => dec_str(b@, i as int) == Some((p.0@, p.1 as int)) && i < p.1 <= b@.len(),
            None => dec_str(b@, i as int) is None,
        },
{
    match rd_u64(b, i) {
        None => None,
        Some((n, j)) => {
            if n <= (b.len() - j) as u64 {
                let k = j + (n as usize);
                let sub = slice_subrange(b, j, k);
                match bytes_to_string(sub) {
                    Some(s) => Some((s, k)),
                    None => None,
                }
            } else {
                None
            }
        },
    }
}

#[verifier::opaque]
pub open spec fn enc_opt_str(o: Option<Seq<char>>) -> Seq<u8> {
    match o {
        None => enc_u8(0),
        Some(s) => enc_u8(1) + enc_str(s),
    }
}

pub open spec fn dec_opt_str(b: Seq<u8>, i: int) -> Option<(Option<Seq<char>>, int)> {
    match dec_u8(b, i) {
        None => None,
        Some((t, j)) => if t == 0 {
            Some((None, j))
        } else if t == 1 {
            match dec_str(b, j) {
                None => None,
                Some((s, k)) => Some((Some(s), k)),
            }
        } else {
            None
        },
    }
}

proof fn lemma_dec_enc_opt_str(o: Option<Seq<char>>, pre: Seq<u8>, suf: Seq<u8>)
    requires
        match o {
            Some(s) => str_fits(s),
            None => true,
        },
    ensures
        dec_opt_str(pre + enc_opt_str(o) + suf, pre.len() as int) == Some(
            (o, (pre.len() + enc_opt_str(o).len()) as int),
        ),
{
    reveal(enc_opt_str);
    let b = pre + enc_opt_str(o) + suf;
    match o {
        None => {
            assert(b[pre.len() as int] == 0u8);
        },
        Some(s) => {
            assert(b[pre.len() as int] == 1u8);
            let pre1 = pre + enc_u8(1);
            assert(b =~= pre1 + enc_str(s) + suf);
            lemma_dec_enc_str(s, pre1, suf);
        },
    }
}

fn wr_opt_str(buf: &mut Vec<u8>, o: &Option<String>)
    ensures
        final(buf)@ == old(buf)@ + enc_opt_str(crate::config::opt_text(*o)),
{
    proof { reveal(enc_opt_str); }
    match o {
        None => {
            buf.push(0);
            proof {
                assert(buf@ =~= old(buf)@ + enc_opt_str(None));
            }
        },
        Some(s) => {
            buf.push(1);
            wr_str(buf, s.as_str());
            proof {
                assert(buf@ =~= old(buf)@ + enc_opt_str(Some(s@)));
            }
        },
    }
}

pub open spec fn enc_kind(k: MatchKind) -> Seq<u8> {
    match k {
        MatchKind::Ip => enc_u8(0),
        MatchKind::Route => enc_u8(1),
        MatchKind::Header => enc_u8(2),
        MatchKind::Attr => enc_u8(3),
    }
}

pub open spec fn dec_kind(b: Seq<u8>, i: int) -> Option<(MatchKind, int)> {
    match dec_u8(b, i) {
        None => None,
        Some((t, j)) => if t == 0 {
            Some((MatchKind::Ip, j))
        } else if t == 1 {
            Some((MatchKind::Route, j))
        } else if t == 2 {
            Some((MatchKind::Header, j))
        } else if t == 3 {
            Some((MatchKind::Attr, j))
        } else {
            None
        },
    }
}

fn wr_kind(buf: &mut Vec<u8>, k: &MatchKind)
    ensures
        final(buf)@ == old(buf)@ + enc_kind(*k),
{
    let t: u8 = match k {
        MatchKind::Ip => 0,
        MatchKind::Route => 1,
        MatchKind::Header => 2,
        MatchKind::Attr => 3,
    };
    buf.push(t);
    proof {
        assert(buf@ =~= old(buf)@ + enc_kind(*k));
    }
}

fn rd_kind(b: &[u8], i: usize) -> (r: Option<(MatchKind, usize)>)
    ensures
        match r {
            Some(p) => dec_kind(b@, i as int) == Some((p.0, p.1 as int)) && i < p.1 <= b@.len(),
            None => dec_kind(b@, i as int) is None,
        },
{
    match rd_u8(b, i) {
        None => None,
        Some((t, j)) => if t == 0 {
            Some((MatchKind::Ip, j))
        } else if t == 1 {
            Some((MatchKind::Route, j))
        } else if t == 2 {
            Some((MatchKind::Header, j))
        } else if t == 3 {
            Some((MatchKind::Attr, j))
        } else {
            None
        },
    }
}

pub open spec fn enc_pattern(p: PatternModel) -> Seq<u8> {
    match p {
        PatternModel::Any => enc_u8(0),
        PatternModel::Exists => enc_u8(1),
        PatternModel::Equals(s) => enc_u8(2) + enc_str(s),
        PatternModel::Prefix(s) => enc_u8(3) + enc_str(s),
    }
}

pub open spec fn dec_pattern(b: Seq<u8>, i: int) -> Option<(PatternModel, int)> {
    match dec_u8(b, i) {
        None => None,
        Some((t, j)) => if t == 0 {
            Some((PatternModel::Any, j))
        } else if t == 1 {
            Some((PatternModel::Exists, j))
        } else if t == 2 {
            match dec_str(b, j) {
                None => None,
                Some((s, k)) => Some((PatternModel::Equals(s), k)),
            }
        } else if t == 3 {
            match dec_str(b, j) {
                None => None,
                Some((s, k)) => Some((PatternModel::Prefix(s), k)),
            }
        } else {
            None
        },
    }
}

pub open spec fn pattern_fits(p: PatternModel) -> bool {
    match p {
        PatternModel::Equals(s) => str_fits(s),
        PatternModel::Prefix(s) => str_fits(s),
        _ => true,
    }
}

proof fn lemma_dec_enc_pattern(p: PatternModel, pre: Seq<u8>, suf: Seq<u8>)
    requires
        pattern_fits(p),
    ensures
        dec_pattern(pre + enc_pattern(p) + suf, pre.len() as int) == Some(
            (p, (pre.len() + enc_pattern(p).len()) as int),
        ),
{
    let b = pre + enc_pattern(p) + suf;
    match p {
        PatternModel::Any => {
            assert(b[pre.len() as int] == 0u8);
        },
        PatternModel::Exists => {
            assert(b[pre.len() as int] == 1u8);
        },
        PatternModel::Equals(s) => {
            assert(b[pre.len() as int] == 2u8);
            let pre1 = pre + enc_u8(2);
            assert(b =~= pre1 + enc_str(s) + suf);
            lemma_dec_enc_str(s, pre1, suf);
        },
        PatternModel::Prefix(s) => {
            assert(b[pre.len() as int] == 3u8);
            let pre1 = pre + enc_u8(3);
            assert(b =~= pre1 + enc_str(s) + suf);
            lemma_dec_enc_str(s, pre1, suf);
        },
    }
}

fn wr_pattern(buf: &mut Vec<u8>, p: &MatchPattern)
    ensures
        final(buf)@ == old(buf)@ + enc_pattern(p@),
{
    match p {
        MatchPattern::Any => {
            buf.push(0);
        },
        MatchPattern::Exists => {
            buf.push(1);
        },
        MatchPattern::Equals(s) => {
            buf.push(2);
            wr_str(buf, s.as_str());
        },
        MatchPattern::Prefix(s) => {
            buf.push(3);
            wr_str(buf, s.as_str());
        },
    }
    proof {
        assert(buf@ =~= old(buf)@ + enc_pattern(p@));
    }
}

fn rd_pattern(b: &[u8], i: usize) -> (r: Option<(MatchPattern, usize)>)
    ensures
        match r {
            Some(p) => dec_pattern(b@, i as int) == Some((p.0@, p.1 as int)) && i < p.1 <= b@.len(),
            None => dec_pattern(b@, i as int) is None,
        },
{
    match rd_u8(b, i) {
        None => None,
        Some((t, j)) => if t == 0 {
            Some((MatchPattern::Any, j))
        } else if t == 1 {
            Some((MatchPattern::Exists, j))
        } else if t == 2 {
            match rd_str(b, j) {
                None => None,
                Some((s, k)) => Some((MatchPattern::Equals(s), k)),
            }
        } else if t == 3 {
            match rd_str(b, j) {
                None => None,
                Some((s, k)) => Some((MatchPattern::Prefix(s), k)),
            }
        } else {
            None
        },
    }
}

pub open spec fn enc_clause(c: ClauseModel) -> Seq<u8> {
    enc_kind(c.kind) + enc_str(c.key) + enc_pattern(c.pattern)
}

pub open spec fn dec_clause(b: Seq<u8>, i: int) -> Option<(ClauseModel, int)> {
    match dec_kind(b, i) {
        None => None,
        Some((k, j)) => match dec_str(b, j) {
            None => None,
            Some((key, j2)) => match dec_pattern(b, j2) {
                None => None,
                Some((p, j3)) => Some((ClauseModel { kind: k, pattern: p, key }, j3)),
            },
        },
    }
}

pub open spec fn clause_fits(c: ClauseModel) -> bool {
    str_fits(c.key) && pattern_fits(c.pattern)
}

#[verifier::rlimit(100)]
proof fn lemma_dec_enc_clause(c: ClauseModel, pre: Seq<u8>, suf: Seq<u8>)
    requires
        clause_fits(c),
    ensures
        dec_clause(pre + enc_clause(c) + suf, pre.len() as int) == Some(
            (c, (pre.len() + enc_clause(c).len()) as int),
        ),
{
    let b = pre + enc_clause(c) + suf;
    assert(b =~= pre + enc_kind(c.kind) + (enc_str(c.key) + enc_pattern(c.pattern) + suf));
    assert(b[pre.len() as int] == enc_kind(c.kind)[0]);
    let pre1 = pre + enc_kind(c.kind);
    assert(b =~= pre1 + enc_str(c.key) + (enc_pattern(c.pattern) + suf));
    lemma_dec_enc_str(c.key, pre1, enc_pattern(c.pattern) + suf);
    let pre2 = pre1 + enc_str(c.key);
    assert(b =~= pre2 + enc_pattern(c.pattern) + suf);
    lemma_dec_enc_pattern(c.pattern, pre2, suf);
}

fn wr_clause(buf: &mut Vec<u8>, c: &MatchClause)
    ensures
        final(buf)@ == old(buf)@ + enc_clause(c@),
{
    wr_kind(buf, &c.kind);
    wr_str(buf, c.key.as_str());
    wr_pattern(buf, &c.pattern);
    proof {
        assert(buf@ =~= old(buf)@ + enc_clause(c@));
    }
}

fn rd_clause(b: &[u8], i: usize) -> (r: Option<(MatchClause, usize)>)
    ensures
        match r {
            Some(p) => dec_clause(b@, i as int) == Some((p.0@, p.1 as int)) && i < p.1 <= b@.len(),
            None => dec_clause(b@, i as int) is None,
        },
{
    match rd_kind(b, i) {
        None => None,
        Some((kind, j)) => match rd_str(b, j) {
            None => None,
            Some((key, j2)) => match rd_pattern(b, j2) {
                None => None,
                Some((pattern, j3)) => Some((MatchClause { kind, pattern, key }, j3)),
            },
        },
    }
}

pub open spec fn cat_clauses(cs: Seq<ClauseModel>, k: int) -> Seq<u8>
    decreases cs.len() - k,
{
    if k < 0 || k >= cs.len() {
        Seq::empty()
    } else {
        enc_clause(cs[k]) + cat_clauses(cs, k + 1)
    }
}

#[verifier::opaque]
pub open spec fn enc_clauses(cs: Seq<ClauseModel>) -> Seq<u8> {
    enc_u64(cs.len() as u64) + cat_clauses(cs, 0)
}

pub open spec fn dec_clauses_n(b: Seq<u8>, i: int, n: int) -> Option<(Seq<ClauseModel>, int)>
    decreases n,
{
    if n <= 0 {
        Some((Seq::empty(), i))
    } else {
        match dec_clause(b, i) {
            None => None,
            Some((c, j)) => match dec_clauses_n(b, j, n - 1) {
                None => None,
                Some((cs, k)) => Some((seq![c] + cs, k)),
            },
        }
    }
}

pub open spec fn dec_clauses(b: Seq<u8>, i: int) -> Option<(Seq<ClauseModel>, int)> {
    match dec_u64(b, i) {
        None => None,
        Some((n, j)) => dec_clauses_n(b, j, n as int),
    }
}

pub open spec fn clauses_fit(cs: Seq<ClauseModel>) -> bool {
    cs.len() <= u64::MAX && (forall|k: int| 0 <= k < cs.len() ==> clause_fits(#[trigger] cs[k]))
}

#[verifier::rlimit(100)]
proof fn lemma_dec_enc_clauses_n(cs: Seq<ClauseModel>, k: int, pre: Seq<u8>, suf: Seq<u8>)
    requires
        0 <= k <= cs.len(),
        forall|m: int| 0 <= m < cs.len() ==> clause_fits(#[trigger] cs[m]),
    ensures
        dec_clauses_n(pre + cat_clauses(cs, k) + suf, pre.len() as int, cs.len() - k) == Some(
            (cs.skip(k), (pre.len() + cat_clauses(cs, k).len()) as int),
        ),
    decreases cs.len() - k,
{
    let b = pre + cat_clauses(cs, k) + suf;
    if k == cs.len() {
        assert(cs.skip(k) =~= Seq::<ClauseModel>::empty());
    } else {
        assert(b =~= pre + enc_clause(cs[k]) + (cat_clauses(cs, k + 1) + suf));
        lemma_dec_enc_clause(cs[k], pre, cat_clauses(cs, k + 1) + suf);
        let pre1 = pre + enc_clause(cs[k]);
        assert(b =~= pre1 + cat_clauses(cs, k + 1) + suf);
        lemma_dec_enc_clauses_n(cs, k + 1, pre1, suf);
        assert(seq![cs[k]] + cs.skip(k + 1) =~= cs.skip(k));
    }
}

#[verifier::rlimit(100)]
proof fn lemma_dec_enc_clauses(cs: Seq<ClauseModel>, pre: Seq<u8>, suf: Seq<u8>)
    requires
        clauses_fit(cs),
    ensures
        dec_clauses(pre + enc_clauses(cs) + suf, pre.len() as int) == Some(
            (cs, (pre.len() + enc_clauses(cs).len()) as int),
        ),
{
    reveal(enc_clauses);
    let b = pre + enc_clauses(cs) + suf;
    let n = cs.len() as u64;
    assert(b =~= pre + enc_u64(n) + (cat_clauses(cs, 0) + suf));
    lemma_dec_enc_u64(n, pre, cat_clauses(cs, 0) + suf);
    let pre1 = pre + enc_u64(n);
    assert(b =~= pre1 + cat_clauses(cs, 0) + suf);
    lemma_dec_enc_clauses_n(cs, 0, pre1, suf);
    assert(cs.skip(0) =~= cs);
}

#[verifier::loop_isolation(false)]
fn wr_clauses(buf: &mut Vec<u8>, cs: &Vec<MatchClause>)
    ensures
        final(buf)@ == old(buf)@ + enc_clauses(crate::policy::clause_model_seq(cs@)),
{
    proof { reveal(enc_clauses); }
    let ghost cms = crate::policy::clause_model_seq(cs@);
    wr_u64(buf, cs.len() as u64);
    let ghost start = buf@;
    let mut i: usize = 0;
    while i < cs.len()
        invariant
            0 <= i <= cs@.len(),
            buf@ =~= start + cat_clauses(cms, 0).subrange(
                0,
                cat_clauses(cms, 0).len() - cat_clauses(cms, i as int).len(),
            ),
            cat_clauses(cms, i as int).len() <= cat_clauses(cms, 0).len(),
        decreases cs@.len() - i,
    {
        proof {
            assert(cs@[i as int]@ == cms[i as int]);
        }
        wr_clause(buf, &cs[i]);
        proof {
            lemma_cat_clauses_shape(cms, i as int);
            assert(buf@ =~= start + cat_clauses(cms, 0).subrange(
                0,
                cat_clauses(cms, 0).len() - cat_clauses(cms, i + 1).len(),
            ));
        }
        i += 1;
    }
    proof {
        assert(cat_clauses(cms, i as int).len() == 0);
        assert(buf@ =~= start + cat_clauses(cms, 0));
        assert(buf@ =~= old(buf)@ + enc_clauses(cms));
    }
}

proof fn lemma_cat_clauses_shape(cs: Seq<ClauseModel>, k: int)
    requires
        0 <= k < cs.len(),
    ensures
        cat_clauses(cs, 0).len() >= cat_clauses(cs, k).len(),
        cat_clauses(cs, k).len() == enc_clause(cs[k]).len() + cat_clauses(cs, k + 1).len(),
        cat_clauses(cs, 0).subrange(0, cat_clauses(cs, 0).len() - cat_clauses(cs, k).len())
            + enc_clause(cs[k]) =~= cat_clauses(cs, 0).subrange(
            0,
            cat_clauses(cs, 0).len() - cat_clauses(cs, k + 1).len(),
        ),
    decreases cs.len() - k,
{
    lemma_cat_clauses_prefix(cs, 0, k);
}

proof fn lemma_cat_clauses_prefix(cs: Seq<ClauseModel>, a: int, k: int)
    requires
        0 <= a <= k < cs.len(),
    ensures
        cat_clauses(cs, a).len() >= cat_clauses(cs, k).len(),
        cat_clauses(cs, k).len() == enc_clause(cs[k]).len() + cat_clauses(cs, k + 1).len(),
        cat_clauses(cs, a).subrange(0, cat_clauses(cs, a).len() - cat_clauses(cs, k).len())
            + enc_clause(cs[k]) =~= cat_clauses(cs, a).subrange(
            0,
            cat_clauses(cs, a).len() - cat_clauses(cs, k + 1).len(),
        ),
    decreases k - a,
{
    if a == k {
        assert(cat_clauses(cs, a) =~= enc_clause(cs[k]) + cat_clauses(cs, k + 1));
        assert(cat_clauses(cs, a).subrange(
            0,
            cat_clauses(cs, a).len() - cat_clauses(cs, k).len(),
        ) =~= Seq::<u8>::empty());
        assert(cat_clauses(cs, a).subrange(
            0,
            cat_clauses(cs, a).len() - cat_clauses(cs, k + 1).len(),
        ) =~= enc_clause(cs[k]));
    } else {
        lemma_cat_clauses_prefix(cs, a + 1, k);
        assert(cat_clauses(cs, a) =~= enc_clause(cs[a]) + cat_clauses(cs, a + 1));
        assert(cat_clauses(cs, a).subrange(
            0,
            cat_clauses(cs, a).len() - cat_clauses(cs, k).len(),
        ) =~= enc_clause(cs[a]) + cat_clauses(cs, a + 1).subrange(
            0,
            cat_clauses(cs, a + 1).len() - cat_clauses(cs, k).len(),
        ));
        assert(cat_clauses(cs, a).subrange(
            0,
            cat_clauses(cs, a).len() - cat_clauses(cs, k + 1).len(),
        ) =~= enc_clause(cs[a]) + cat_clauses(cs, a + 1).subrange(
            0,
            cat_clauses(cs, a + 1).len() - cat_clauses(cs, k + 1).len(),
        ));
    }
}

#[verifier::loop_isolation(false)]
fn rd_clauses(b: &[u8], i: usize, n: u64) -> (r: Option<(Vec<MatchClause>, usize)>)
    requires
        i <= b@.len(),
    ensures
        match r {
            Some(p) => dec_clauses_n(b@, i as int, n as int) == Some(
                (crate::policy::clause_model_seq(p.0@), p.1 as int),
            ) && i <= p.1 <= b@.len(),
            None => dec_clauses_n(b@, i as int, n as int) is None,
        },
{
    let mut acc: Vec<MatchClause> = Vec::new();
    let mut cur = i;
    let mut j: u64 = 0;
    proof {
        assert(crate::policy::clause_model_seq(acc@) =~= Seq::<ClauseModel>::empty());
    }
    while j < n
        invariant
            i <= cur <= b@.len(),
            0 <= j <= n,
            ({
                let whole = dec_clauses_n(b@, i as int, n as int);
                match dec_clauses_n(b@, cur as int, (n - j) as int) {
                    None => whole is None,
                    Some(t) => whole == Some(
                        (crate::policy::clause_model_seq(acc@) + t.0, t.1),
                    ),
                }
            }),
        decreases n - j,
    {
        match rd_clause(b, cur) {
            None => {
                return None;
            },
            Some((c, next)) => {
                let ghost accprev = acc@;
                acc.push(c);
                proof {
                    assert(crate::policy::clause_model_seq(acc@) =~= crate::policy::clause_model_seq(
                        accprev,
                    ).push(c@));
                    assert(forall|t0: Seq<ClauseModel>|
                        crate::policy::clause_model_seq(accprev) + (seq![c@] + t0)
                            =~= crate::policy::clause_model_seq(acc@) + t0);
                }
                cur = next;
            },
        }
        j += 1;
    }
    proof {
        assert(crate::policy::clause_model_seq(acc@) + Seq::<ClauseModel>::empty()
            =~= crate::policy::clause_model_seq(acc@));
    }
    Some((acc, cur))
}

pub open spec fn enc_u32(v: u32) -> Seq<u8> {
    enc_u64(v as u64)
}

pub open spec fn dec_u32(b: Seq<u8>, i: int) -> Option<(u32, int)> {
    match dec_u64(b, i) {
        None => None,
        Some((x, j)) => if x <= u32::MAX as u64 {
            Some((x as u32, j))
        } else {
            None
        },
    }
}

proof fn lemma_dec_enc_u32(v: u32, pre: Seq<u8>, suf: Seq<u8>)
    ensures
        dec_u32(pre + enc_u32(v) + suf, pre.len() as int) == Some(
            (v, (pre.len() + enc_u32(v).len()) as int),
        ),
{
    lemma_dec_enc_u64(v as u64, pre, suf);
}

fn rd_u32(b: &[u8], i: usize) -> (r: Option<(u32, usize)>)
    ensures
        match r {
            Some(p) => dec_u32(b@, i as int) == Some((p.0, p.1 as int)) && i < p.1 <= b@.len(),
            None => dec_u32(b@, i as int) is None,
        },
{
    match rd_u64(b, i) {
        None => None,
        Some((x, j)) => if x <= u32::MAX as u64 {
            Some((x as u32, j))
        } else {
            None
        },
    }
}

pub open spec fn enc_action(a: Option<PolicyAction>) -> Seq<u8> {
    match a {
        None => enc_u8(0),
        Some(PolicyAction::Reject) => enc_u8(1),
        Some(PolicyAction::Annotate) => enc_u8(2),
    }
}

pub open spec fn dec_action(b: Seq<u8>, i: int) -> Option<(Option<PolicyAction>, int)> {
    match dec_u8(b, i) {
        None => None,
        Some((t, j)) => if t == 0 {
            Some((None, j))
        } else if t == 1 {
            Some((Some(PolicyAction::Reject), j))
        } else if t == 2 {
            Some((Some(PolicyAction::Annotate), j))
        } else {
            None
        },
    }
}

fn wr_action(buf: &mut Vec<u8>, a: &Option<PolicyAction>)
    ensures
        final(buf)@ == old(buf)@ + enc_action(*a),
{
    let t: u8 = match a {
        None => 0,
        Some(PolicyAction::Reject) => 1,
        Some(PolicyAction::Annotate) => 2,
    };
    buf.push(t);
    proof {
        assert(buf@ =~= old(buf)@ + enc_action(*a));
    }
}

fn rd_action(b: &[u8], i: usize) -> (r: Option<(Option<PolicyAction>, usize)>)
    ensures
        match r {
            Some(p) => dec_action(b@, i as int) == Some((p.0, p.1 as int)) && i < p.1 <= b@.len(),
            None => dec_action(b@, i as int) is None,
        },
{
    match rd_u8(b, i) {
        None => None,
        Some((t, j)) => if t == 0 {
            Some((None, j))
        } else if t == 1 {
            Some((Some(PolicyAction::Reject), j))
        } else if t == 2 {
            Some((Some(PolicyAction::Annotate), j))
        } else {
            None
        },
    }
}

#[verifier::opaque]
pub open spec fn enc_policy(d: PolicyModel) -> Seq<u8> {
    enc_str(d.id) + enc_str(d.match_rule) + enc_u32(d.limit_per_second) + enc_u32(d.burst)
        + enc_u32(d.window_seconds) + enc_action(d.action)
}

#[verifier::opaque]
pub open spec fn dec_policy(b: Seq<u8>, i: int) -> Option<(PolicyModel, int)> {
    match dec_str(b, i) {
        None => None,
        Some((id, j1)) => match dec_str(b, j1) {
            None => None,
            Some((match_rule, j2)) => match dec_u32(b, j2) {
                None => None,
                Some((limit_per_second, j3)) => match dec_u32(b, j3) {
                    None => None,
                    Some((burst, j4)) => match dec_u32(b, j4) {
                        None => None,
                        Some((window_seconds, j5)) => match dec_action(b, j5) {
                            None => None,
                            Some((action, j6)) => Some(
                                (
                                    PolicyModel {
                                        id,
                                        match_rule,
                                        limit_per_second,
                                        burst,
                                        window_seconds,
                                        action,
                                    },
                                    j6,
                                ),
                            ),
                        },
                    },
                },
            },
        },
    }
}

pub open spec fn policy_fits(d: PolicyModel) -> bool {
    str_fits(d.id) && str_fits(d.match_rule)
}

#[verifier::rlimit(100)]
proof fn lemma_dec_enc_policy(d: PolicyModel, pre: Seq<u8>, suf: Seq<u8>)
    requires
        policy_fits(d),
    ensures
        dec_policy(pre + enc_policy(d) + suf, pre.len() as int) == Some(
            (d, (pre.len() + enc_policy(d).len()) as int),
        ),
{
    reveal(enc_policy);
    reveal(dec_policy);
    let b = pre + enc_policy(d) + suf;
    let e1 = enc_str(d.id);
    let e2 = enc_str(d.match_rule);
    let e3 = enc_u32(d.limit_per_second);
    let e4 = enc_u32(d.burst);
    let e5 = enc_u32(d.window_seconds);
    let e6 = enc_action(d.action);
    assert(b =~= pre + e1 + (e2 + e3 + e4 + e5 + e6 + suf));
    lemma_dec_enc_str(d.id, pre, e2 + e3 + e4 + e5 + e6 + suf);
    let p1 = pre + e1;
    assert(b =~= p1 + e2 + (e3 + e4 + e5 + e6 + suf));
    lemma_dec_enc_str(d.match_rule, p1, e3 + e4 + e5 + e6 + suf);
    let p2 = p1 + e2;
    assert(b =~= p2 + e3 + (e4 + e5 + e6 + suf));
    lemma_dec_enc_u32(d.limit_per_second, p2, e4 + e5 + e6 + suf);
    let p3 = p2 + e3;
    assert(b =~= p3 + e4 + (e5 + e6 + suf));
    lemma_dec_enc_u32(d.burst, p3, e5 + e6 + suf);
    let p4 = p3 + e4;
    assert(b =~= p4 + e5 + (e6 + suf));
    lemma_dec_enc_u32(d.window_seconds, p4, e6 + suf);
    let p5 = p4 + e5;
    assert(b =~= p5 + e6 + suf);
    assert(b[p5.len() as int] == e6[0]);
}

fn wr_policy(buf: &mut Vec<u8>, d: &FluxgatePolicy)
    ensures
        final(buf)@ == old(buf)@ + enc_policy(d@),
{
    proof {
        reveal(enc_policy);
    }
    wr_str(buf, d.id.as_str());
    wr_str(buf, d.match_rule.as_str());
    wr_u64(buf, d.limit_per_second as u64);
    wr_u64(buf, d.burst as u64);
    wr_u64(buf, d.window_seconds as u64);
    wr_action(buf, &d.action);
    proof {
        assert(buf@ =~= old(buf)@ + enc_policy(d@));
    }
}

fn rd_policy(b: &[u8], i: usize) -> (r: Option<(FluxgatePolicy, usize)>)
    ensures
        match r {
            Some(p) => dec_policy(b@, i as int) == Some((p.0@, p.1 as int)) && i < p.1 <= b@.len(),
            None => dec_policy(b@, i as int) is None,
        },
{
    proof {
        reveal(dec_policy);
    }
    match rd_str(b, i) {
        None => None,
        Some((id, j1)) => match rd_str(b, j1) {
            None => None,
            Some((match_rule, j2)) => match rd_u32(b, j2) {
                None => None,
                Some((limit_per_second, j3)) => match rd_u32(b, j3) {
                    None => None,
                    Some((burst, j4)) => match rd_u32(b, j4) {
                        None => None,
                        Some((window_seconds, j5)) => match rd_action(b, j5) {
                            None => None,
                            Some((action, j6)) => Some(
                                (
                                    FluxgatePolicy {
                                        id,
                                        match_rule,
                                        limit_per_second,
                                        burst,
                                        window_seconds,
                                        action,
                                    },
                                    j6,
                                ),
                            ),
                        },
                    },
                },
            },
        },
    }
}

#[verifier::opaque]
pub open spec fn enc_compiled(cm: CompiledModel) -> Seq<u8> {
    enc_policy(cm.definition) + enc_clauses(cm.clauses)
}

#[verifier::opaque]
pub open spec fn dec_compiled(b: Seq<u8>, i: int) -> Option<(CompiledModel, int)> {
    match dec_policy(b, i) {
        None => None,
        Some((definition, j)) => match dec_clauses(b, j) {
            None => None,
            Some((clauses, k)) => Some((CompiledModel { definition, clauses }, k)),
        },
    }
}

pub open spec fn compiled_fits(cm: CompiledModel) -> bool {
    policy_fits(cm.definition) && clauses_fit(cm.clauses)
}

#[verifier::rlimit(100)]
proof fn lemma_dec_enc_compiled(cm: CompiledModel, pre: Seq<u8>, suf: Seq<u8>)
    requires
        compiled_fits(cm),
    ensures
        dec_compiled(pre + enc_compiled(cm) + suf, pre.len() as int) == Some(
            (cm, (pre.len() + enc_compiled(cm).len()) as int),
        ),
{
    reveal(enc_compiled);
    reveal(dec_compiled);
    let b = pre + enc_compiled(cm) + suf;
    assert(b =~= pre + enc_policy(cm.definition) + (enc_clauses(cm.clauses) + suf));
    lemma_dec_enc_policy(cm.definition, pre, enc_clauses(cm.clauses) + suf);
    let p1 = pre + enc_policy(cm.definition);
    assert(b =~= p1 + enc_clauses(cm.clauses) + suf);
    lemma_dec_enc_clauses(cm.clauses, p1, suf);
}

fn wr_compiled(buf: &mut Vec<u8>, cp: &CompiledPolicy)
    ensures
        final(buf)@ == old(buf)@ + enc_compiled(cp@),
{
    proof {
        reveal(enc_compiled);
    }
    wr_policy(buf, &cp.definition);
    wr_clauses(buf, cp.matcher.clause_list());
    proof {
        assert(buf@ =~= old(buf)@ + enc_compiled(cp@));
    }
}

fn rd_compiled(b: &[u8], i: usize) -> (r: Option<(CompiledPolicy, usize)>)
    ensures
        match r {
            Some(p) => dec_compiled(b@, i as int) == Some((p.0@, p.1 as int)) && i < p.1
                <= b@.len(),
            None => dec_compiled(b@, i as int) is None,
        },
{
    proof {
        reveal(dec_compiled);
    }
    match rd_policy(b, i) {
        None => None,
        Some((definition, j)) => match rd_u64(b, j) {
            None => None,
            Some((n, j2)) => match rd_clauses(b, j2, n) {
                None => None,
                Some((clauses, k)) => Some(
                    (
                        CompiledPolicy {
                            definition,
                            matcher: PolicyMatcher::from_clauses(clauses),
                        },
                        k,
                    ),
                ),
            },
        },
    }
}

pub open spec fn enc_bucket(e: (u64, TokenBucket)) -> Seq<u8> {
    enc_u64(e.0) + enc_u64(e.1.millitokens) + enc_u64(e.1.last_ms)
}

pub open spec fn dec_bucket(b: Seq<u8>, i: int) -> Option<((u64, TokenBucket), int)> {
    match dec_u64(b, i) {
        None => None,
        Some((key, j1)) => match dec_u64(b, j1) {
            None => None,
            Some((millitokens, j2)) => match dec_u64(b, j2) {
                None => None,
                Some((last_ms, j3)) => Some(((key, TokenBucket { millitokens, last_ms }), j3)),
            },
        },
    }
}

#[verifier::rlimit(100)]
proof fn lemma_dec_enc_bucket(e: (u64, TokenBucket), pre: Seq<u8>, suf: Seq<u8>)
    ensures
        dec_bucket(pre + enc_bucket(e) + suf, pre.len() as int) == Some(
            (e, (pre.len() + enc_bucket(e).len()) as int),
        ),
{
    let b = pre + enc_bucket(e) + suf;
    let e1 = enc_u64(e.0);
    let e2 = enc_u64(e.1.millitokens);
    let e3 = enc_u64(e.1.last_ms);
    assert(b =~= pre + e1 + (e2 + e3 + suf));
    lemma_dec_enc_u64(e.0, pre, e2 + e3 + suf);
    let p1 = pre + e1;
    assert(b =~= p1 + e2 + (e3 + suf));
    lemma_dec_enc_u64(e.1.millitokens, p1, e3 + suf);
    let p2 = p1 + e2;
    assert(b =~= p2 + e3 + suf);
    lemma_dec_enc_u64(e.1.last_ms, p2, suf);
    assert(e == (e.0, TokenBucket { millitokens: e.1.millitokens, last_ms: e.1.last_ms }));
}

fn wr_bucket(buf: &mut Vec<u8>, key: u64, tb: &TokenBucket)
    ensures
        final(buf)@ == old(buf)@ + enc_bucket((key, *tb)),
{
    wr_u64(buf, key);
    wr_u64(buf, tb.millitokens);
    wr_u64(buf, tb.last_ms);
    proof {
        assert(buf@ =~= old(buf)@ + enc_bucket((key, *tb)));
    }
}

fn rd_bucket(b: &[u8], i: usize) -> (r: Option<((u64, TokenBucket), usize)>)
    ensures
        match r {
            Some(p) => dec_bucket(b@, i as int) == Some((p.0, p.1 as int)) && i < p.1 <= b@.len(),
            None => dec_bucket(b@, i as int) is None,
        },
{
    match rd_u64(b, i) {
        None => None,
        Some((key, j1)) => match rd_u64(b, j1) {
            None => None,
            Some((millitokens, j2)) => match rd_u64(b, j2) {
                None => None,
                Some((last_ms, j3)) => Some(((key, TokenBucket { millitokens, last_ms }), j3)),
            },
        },
    }
}

pub open spec fn cat_buckets(tbl: Seq<(u64, TokenBucket)>, k: int) -> Seq<u8>
    decreases tbl.len() - k,
{
    if k < 0 || k >= tbl.len() {
        Seq::empty()
    } else {
        enc_bucket(tbl[k]) + cat_buckets(tbl, k + 1)
    }
}

/// Whether a bucket table holds no two entries with one key.
pub open spec fn tbl_unique(tbl: Seq<(u64, TokenBucket)>) -> bool {
    forall|i: int, j: int| 0 <= i < j < tbl.len() ==> tbl[i].0 != tbl[j].0
}

#[verifier::opaque]
pub open spec fn enc_buckets(tbl: Seq<(u64, TokenBucket)>) -> Seq<u8> {
    enc_u64(tbl.len() as u64) + cat_buckets(tbl, 0)
}

pub open spec fn dec_buckets_n(b: Seq<u8>, i: int, n: int) -> Option<(Seq<(u64, TokenBucket)>, int)>
    decreases n,
{
    if n <= 0 {
        Some((Seq::empty(), i))
    } else {
        match dec_bucket(b, i) {
            None => None,
            Some((e, j)) => match dec_buckets_n(b, j, n - 1) {
                None => None,
                Some((tbl, k)) => Some((seq![e] + tbl, k)),
            },
        }
    }
}

pub open spec fn dec_buckets(b: Seq<u8>, i: int) -> Option<(Seq<(u64, TokenBucket)>, int)> {
    match dec_u64(b, i) {
        None => None,
        Some((n, j)) => match dec_buckets_n(b, j, n as int) {
            None => None,
            Some((tbl, k)) => if tbl_unique(tbl) {
                Some((tbl, k))
            } else {
                None
            },
        },
    }
}

#[verifier::rlimit(100)]
proof fn lemma_dec_enc_buckets_n(tbl: Seq<(u64, TokenBucket)>, k: int, pre: Seq<u8>, suf: Seq<u8>)
    requires
        0 <= k <= tbl.len(),
    ensures
        dec_buckets_n(pre + cat_buckets(tbl, k) + suf, pre.len() as int, tbl.len() - k) == Some(
            (tbl.skip(k), (pre.len() + cat_buckets(tbl, k).len()) as int),
        ),
    decreases tbl.len() - k,
{
    let b = pre + cat_buckets(tbl, k) + suf;
    if k == tbl.len() {
        assert(tbl.skip(k) =~= Seq::<(u64, TokenBucket)>::empty());
    } else {
        assert(b =~= pre + enc_bucket(tbl[k]) + (cat_buckets(tbl, k + 1) + suf));
        lemma_dec_enc_bucket(tbl[k], pre, cat_buckets(tbl, k + 1) + suf);
        let pre1 = pre + enc_bucket(tbl[k]);
        assert(b =~= pre1 + cat_buckets(tbl, k + 1) + suf);
        lemma_dec_enc_buckets_n(tbl, k + 1, pre1, suf);
        assert(seq![tbl[k]] + tbl.skip(k + 1) =~= tbl.skip(k));
    }
}

#[verifier::rlimit(100)]
proof fn lemma_dec_enc_buckets(tbl: Seq<(u64, TokenBucket)>, pre: Seq<u8>, suf: Seq<u8>)
    requires
        tbl.len() <= u64::MAX,
        tbl_unique(tbl),
    ensures
        dec_buckets(pre + enc_buckets(tbl) + suf, pre.len() as int) == Some(
            (tbl, (pre.len() + enc_buckets(tbl).len()) as int),
        ),
{
    reveal(enc_buckets);
    let b = pre + enc_buckets(tbl) + suf;
    let n = tbl.len() as u64;
    assert(b =~= pre + enc_u64(n) + (cat_buckets(tbl, 0) + suf));
    lemma_dec_enc_u64(n, pre, cat_buckets(tbl, 0) + suf);
    let pre1 = pre + enc_u64(n);
    assert(b =~= pre1 + cat_buckets(tbl, 0) + suf);
    lemma_dec_enc_buckets_n(tbl, 0, pre1, suf);
    assert(tbl.skip(0) =~= tbl);
}

proof fn lemma_cat_buckets_prefix(tbl: Seq<(u64, TokenBucket)>, a: int, k: int)
    requires
        0 <= a <= k < tbl.len(),
    ensures
        cat_buckets(tbl, a).len() >= cat_buckets(tbl, k).len(),
        cat_buckets(tbl, k).len() == enc_bucket(tbl[k]).len() + cat_buckets(tbl, k + 1).len(),
        cat_buckets(tbl, a).subrange(0, cat_buckets(tbl, a).len() - cat_buckets(tbl, k).len())
            + enc_bucket(tbl[k]) =~= cat_buckets(tbl, a).subrange(
            0,
            cat_buckets(tbl, a).len() - cat_buckets(tbl, k + 1).len(),
        ),
    decreases k - a,
{
    if a == k {
        assert(cat_buckets(tbl, a) =~= enc_bucket(tbl[k]) + cat_buckets(tbl, k + 1));
        assert(cat_buckets(tbl, a).subrange(
            0,
            cat_buckets(tbl, a).len() - cat_buckets(tbl, k).len(),
        ) =~= Seq::<u8>::empty());
        assert(cat_buckets(tbl, a).subrange(
            0,
            cat_buckets(tbl, a).len() - cat_buckets(tbl, k + 1).len(),
        ) =~= enc_bucket(tbl[k]));
    } else {
        lemma_cat_buckets_prefix(tbl, a + 1, k);
        assert(cat_buckets(tbl, a) =~= enc_bucket(tbl[a]) + cat_buckets(tbl, a + 1));
        assert(cat_buckets(tbl, a).subrange(
            0,
            cat_buckets(tbl, a).len() - cat_buckets(tbl, k).len(),
        ) =~= enc_bucket(tbl[a]) + cat_buckets(tbl, a + 1).subrange(
            0,
            cat_buckets(tbl, a + 1).len() - cat_buckets(tbl, k).len(),
        ));
        assert(cat_buckets(tbl, a).subrange(
            0,
            cat_buckets(tbl, a).len() - cat_buckets(tbl, k + 1).len(),
        ) =~= enc_bucket(tbl[a]) + cat_buckets(tbl, a + 1).subrange(
            0,
            cat_buckets(tbl, a + 1).len() - cat_buckets(tbl, k + 1).len(),
        ));
    }
}

#[verifier::loop_isolation(false)]
fn wr_buckets(buf: &mut Vec<u8>, tbl: &Vec<(u64, TokenBucket)>)
    ensures
        final(buf)@ == old(buf)@ + enc_buckets(tbl@),
{
    proof { reveal(enc_buckets); }
    let ghost tv = tbl@;
    wr_u64(buf, tbl.len() as u64);
    let ghost start = buf@;
    let mut i: usize = 0;
    while i < tbl.len()
        invariant
            0 <= i <= tv.len(),
            tbl@ == tv,
            buf@ =~= start + cat_buckets(tv, 0).subrange(
                0,
                cat_buckets(tv, 0).len() - cat_buckets(tv, i as int).len(),
            ),
            cat_buckets(tv, i as int).len() <= cat_buckets(tv, 0).len(),
        decreases tv.len() - i,
    {
        wr_bucket(buf, tbl[i].0, &tbl[i].1);
        proof {
            assert((tv[i as int].0, tv[i as int].1) == tv[i as int]);
            lemma_cat_buckets_prefix(tv, 0, i as int);
            assert(buf@ =~= start + cat_buckets(tv, 0).subrange(
                0,
                cat_buckets(tv, 0).len() - cat_buckets(tv, i + 1).len(),
            ));
        }
        i += 1;
    }
    proof {
        assert(cat_buckets(tv, i as int).len() == 0);
        assert(buf@ =~= start + cat_buckets(tv, 0));
        assert(buf@ =~= old(buf)@ + enc_buckets(tv));
    }
}

fn tbl_is_unique(tbl: &Vec<(u64, TokenBucket)>) -> (r: bool)
    ensures
        r == tbl_unique(tbl@),
{
    let mut a: usize = 0;
    while a < tbl.len()
        invariant
            0 <= a <= tbl@.len(),
            forall|i: int, j: int| 0 <= i < j < tbl@.len() && i < a ==> tbl@[i].0 != tbl@[j].0,
        decreases tbl@.len() - a,
    {
        let mut c: usize = a + 1;
        while c < tbl.len()
            invariant
                a < c <= tbl@.len() || (c == a + 1),
                a < tbl@.len(),
                forall|j: int| a < j < c ==> tbl@[a as int].0 != tbl@[j].0,
            decreases tbl@.len() - c,
        {
            if tbl[a].0 == tbl[c].0 {
                return false;
            }
            c += 1;
        }
        a += 1;
    }
    true
}

#[verifier::loop_isolation(false)]
fn rd_buckets(b: &[u8], i: usize) -> (r: Option<(Vec<(u64, TokenBucket)>, usize)>)
    requires
        i <= b@.len(),
    ensures
        match r {
            Some(p) => dec_buckets(b@, i as int) == Some((p.0@, p.1 as int)) && i <= p.1
                <= b@.len() && tbl_unique(p.0@),
            None => dec_buckets(b@, i as int) is None,
        },
{
    match rd_u64(b, i) {
        None => None,
        Some((n, j0)) => {
            let mut acc: Vec<(u64, TokenBucket)> = Vec::new();
            let mut cur = j0;
            let mut j: u64 = 0;
            proof {
                assert(acc@ =~= Seq::<(u64, TokenBucket)>::empty());
            }
            while j < n
                invariant
                    i < cur <= b@.len(),
                    0 <= j <= n,
                    ({
                        let whole = dec_buckets_n(b@, j0 as int, n as int);
                        match dec_buckets_n(b@, cur as int, (n - j) as int) {
                            None => whole is None,
                            Some(t) => whole == Some((acc@ + t.0, t.1)),
                        }
                    }),
                decreases n - j,
            {
                match rd_bucket(b, cur) {
                    None => {
                        return None;
                    },
                    Some((e, next)) => {
                        let ghost accprev = acc@;
                        acc.push(e);
                        proof {
                            assert(forall|t0: Seq<(u64, TokenBucket)>|
                                accprev + (seq![e] + t0) =~= acc@ + t0);
                        }
                        cur = next;
                    },
                }
                j += 1;
            }
            proof {
                assert(acc@ + Seq::<(u64, TokenBucket)>::empty() =~= acc@);
            }
            if tbl_is_unique(&acc) {
                Some((acc, cur))
            } else {
                None
            }
        },
    }
}

#[verifier::opaque]
pub open spec fn enc_state(ps: PolicyStateModel) -> Seq<u8> {
    enc_compiled(ps.compiled) + enc_buckets(ps.buckets)
}

#[verifier::opaque]
pub open spec fn dec_state(b: Seq<u8>, i: int) -> Option<(PolicyStateModel, int)> {
    match dec_compiled(b, i) {
        None => None,
        Some((compiled, j)) => match dec_buckets(b, j) {
            None => None,
            Some((buckets, k)) => Some((PolicyStateModel { compiled, buckets }, k)),
        },
    }
}

pub open spec fn state_fits(ps: PolicyStateModel) -> bool {
    compiled_fits(ps.compiled) && ps.buckets.len() <= u64::MAX
}

#[verifier::rlimit(100)]
proof fn lemma_dec_enc_state(ps: PolicyStateModel, pre: Seq<u8>, suf: Seq<u8>)
    requires
        state_fits(ps),
        tbl_unique(ps.buckets),
    ensures
        dec_state(pre + enc_state(ps) + suf, pre.len() as int) == Some(
            (ps, (pre.len() + enc_state(ps).len()) as int),
        ),
{
    reveal(enc_state);
    reveal(dec_state);
    let b = pre + enc_state(ps) + suf;
    assert(b =~= pre + enc_compiled(ps.compiled) + (enc_buckets(ps.buckets) + suf));
    lemma_dec_enc_compiled(ps.compiled, pre, enc_buckets(ps.buckets) + suf);
    let p1 = pre + enc_compiled(ps.compiled);
    assert(b =~= p1 + enc_buckets(ps.buckets) + suf);
    lemma_dec_enc_buckets(ps.buckets, p1, suf);
}

fn wr_state(buf: &mut Vec<u8>, ps: &PolicyState)
    ensures
        final(buf)@ == old(buf)@ + enc_state(ps@),
{
    wr_compiled(buf, &ps.compiled);
    wr_buckets(buf, &ps.buckets);
    proof {
        reveal(enc_state);
        assert(buf@ =~= old(buf)@ + enc_state(ps@));
    }
}

fn rd_state(b: &[u8], i: usize) -> (r: Option<(PolicyState, usize)>)
    ensures
        match r {
            Some(p) => dec_state(b@, i as int) == Some((p.0@, p.1 as int)) && i < p.1 <= b@.len()
                && crate::limiter::policy_state_wf(p.0@),
            None => dec_state(b@, i as int) is None,
        },
{
    proof {
        reveal(dec_state);
    }
    match rd_compiled(b, i) {
        None => None,
        Some((compiled, j)) => match rd_buckets(b, j) {
            None => None,
            Some((buckets, k)) => Some((PolicyState { compiled, buckets }, k)),
        },
    }
}

pub open spec fn cat_states(pss: Seq<PolicyStateModel>, k: int) -> Seq<u8>
    decreases pss.len() - k,
{
    if k < 0 || k >= pss.len() {
        Seq::empty()
    } else {
        enc_state(pss[k]) + cat_states(pss, k + 1)
    }
}

#[verifier::opaque]
pub open spec fn enc_states(pss: Seq<PolicyStateModel>) -> Seq<u8> {
    enc_u64(pss.len() as u64) + cat_states(pss, 0)
}

pub open spec fn dec_states_n(b: Seq<u8>, i: int, n: int) -> Option<(Seq<PolicyStateModel>, int)>
    decreases n,
{
    if n <= 0 {
        Some((Seq::empty(), i))
    } else {
        match dec_state(b, i) {
            None => None,
            Some((ps, j)) => match dec_states_n(b, j, n - 1) {
                None => None,
                Some((pss, k)) => Some((seq![ps] + pss, k)),
            },
        }
    }
}

pub open spec fn dec_states(b: Seq<u8>, i: int) -> Option<(Seq<PolicyStateModel>, int)> {
    match dec_u64(b, i) {
        None => None,
        Some((n, j)) => dec_states_n(b, j, n as int),
    }
}

pub open spec fn states_fit(pss: Seq<PolicyStateModel>) -> bool {
    pss.len() <= u64::MAX && (forall|k: int| 0 <= k < pss.len() ==> state_fits(#[trigger] pss[k]))
}

#[verifier::rlimit(100)]
proof fn lemma_dec_enc_states_n(pss: Seq<PolicyStateModel>, k: int, pre: Seq<u8>, suf: Seq<u8>)
    requires
        0 <= k <= pss.len(),
        forall|m: int| 0 <= m < pss.len() ==> state_fits(#[trigger] pss[m]),
        forall|m: int| 0 <= m < pss.len() ==> tbl_unique((#[trigger] pss[m]).buckets),
    ensures
        dec_states_n(pre + cat_states(pss, k) + suf, pre.len() as int, pss.len() - k) == Some(
            (pss.skip(k), (pre.len() + cat_states(pss, k).len()) as int),
        ),
    decreases pss.len() - k,
{
    let b = pre + cat_states(pss, k) + suf;
    if k == pss.len() {
        assert(pss.skip(k) =~= Seq::<PolicyStateModel>::empty());
    } else {
        assert(b =~= pre + enc_state(pss[k]) + (cat_states(pss, k + 1) + suf));
        lemma_dec_enc_state(pss[k], pre, cat_states(pss, k + 1) + suf);
        let pre1 = pre + enc_state(pss[k]);
        assert(b =~= pre1 + cat_states(pss, k + 1) + suf);
        lemma_dec_enc_states_n(pss, k + 1, pre1, suf);
        assert(seq![pss[k]] + pss.skip(k + 1) =~= pss.skip(k));
    }
}

#[verifier::rlimit(100)]
proof fn lemma_dec_enc_states(pss: Seq<PolicyStateModel>, pre: Seq<u8>, suf: Seq<u8>)
    requires
        states_fit(pss),
        forall|m: int| 0 <= m < pss.len() ==> tbl_unique((#[trigger] pss[m]).buckets),
    ensures
        dec_states(pre + enc_states(pss) + suf, pre.len() as int) == Some(
            (pss, (pre.len() + enc_states(pss).len()) as int),
        ),
{
    reveal(enc_states);
    let b = pre + enc_states(pss) + suf;
    let n = pss.len() as u64;
    assert(b =~= pre + enc_u64(n) + (cat_states(pss, 0) + suf));
    lemma_dec_enc_u64(n, pre, cat_states(pss, 0) + suf);
    let pre1 = pre + enc_u64(n);
    assert(b =~= pre1 + cat_states(pss, 0) + suf);
    lemma_dec_enc_states_n(pss, 0, pre1, suf);
    assert(pss.skip(0) =~= pss);
}

proof fn lemma_cat_states_prefix(pss: Seq<PolicyStateModel>, a: int, k: int)
    requires
        0 <= a <= k < pss.len(),
    ensures
        cat_states(pss, a).len() >= cat_states(pss, k).len(),
        cat_states(pss, k).len() == enc_state(pss[k]).len() + cat_states(pss, k + 1).len(),
        cat_states(pss, a).subrange(0, cat_states(pss, a).len() - cat_states(pss, k).len())
            + enc_state(pss[k]) =~= cat_states(pss, a).subrange(
            0,
            cat_states(pss, a).len() - cat_states(pss, k + 1).len(),
        ),
    decreases k - a,
{
    if a == k {
        assert(cat_states(pss, a) =~= enc_state(pss[k]) + cat_states(pss, k + 1));
        assert(cat_states(pss, a).subrange(
            0,
            cat_states(pss, a).len() - cat_states(pss, k).len(),
        ) =~= Seq::<u8>::empty());
        assert(cat_states(pss, a).subrange(
            0,
            cat_states(pss, a).len() - cat_states(pss, k + 1).len(),
        ) =~= enc_state(pss[k]));
    } else {
        lemma_cat_states_prefix(pss, a + 1, k);
        assert(cat_states(pss, a) =~= enc_state(pss[a]) + cat_states(pss, a + 1));
        assert(cat_states(pss, a).subrange(
            0,
            cat_states(pss, a).len() - cat_states(pss, k).len(),
        ) =~= enc_state(pss[a]) + cat_states(pss, a + 1).subrange(
            0,
            cat_states(pss, a + 1).len() - cat_states(pss, k).len(),
        ));
        assert(cat_states(pss, a).subrange(
            0,
            cat_states(pss, a).len() - cat_states(pss, k + 1).len(),
        ) =~= enc_state(pss[a]) + cat_states(pss, a + 1).subrange(
            0,
            cat_states(pss, a + 1).len() - cat_states(pss, k + 1).len(),
        ));
    }
}

#[verifier::loop_isolation(false)]
fn wr_states(buf: &mut Vec<u8>, pss: &Vec<PolicyState>)
    ensures
        final(buf)@ == old(buf)@ + enc_states(crate::limiter::psm_views(pss@)),
{
    proof { reveal(enc_states); }
    let ghost sv = crate::limiter::psm_views(pss@);
    wr_u64(buf, pss.len() as u64);
    let ghost start = buf@;
    let mut i: usize = 0;
    while i < pss.len()
        invariant
            0 <= i <= sv.len(),
            sv == crate::limiter::psm_views(pss@),
            buf@ =~= start + cat_states(sv, 0).subrange(
                0,
                cat_states(sv, 0).len() - cat_states(sv, i as int).len(),
            ),
            cat_states(sv, i as int).len() <= cat_states(sv, 0).len(),
        decreases sv.len() - i,
    {
        proof {
            assert(pss@[i as int]@ == sv[i as int]);
        }
        wr_state(buf, &pss[i]);
        proof {
            lemma_cat_states_prefix(sv, 0, i as int);
            assert(buf@ =~= start + cat_states(sv, 0).subrange(
                0,
                cat_states(sv, 0).len() - cat_states(sv, i + 1).len(),
            ));
        }
        i += 1;
    }
    proof {
        assert(cat_states(sv, i as int).len() == 0);
        assert(buf@ =~= start + cat_states(sv, 0));
        assert(buf@ =~= old(buf)@ + enc_states(sv));
    }
}

#[verifier::loop_isolation(false)]
#[verifier::rlimit(100)]
fn rd_states(b: &[u8], i: usize) -> (r: Option<(Vec<PolicyState>, usize)>)
    requires
        i <= b@.len(),
    ensures
        match r {
            Some(p) => dec_states(b@, i as int) == Some(
                (crate::limiter::psm_views(p.0@), p.1 as int),
            ) && i <= p.1 <= b@.len() && (forall|m: int|
                0 <= m < p.0@.len() ==> crate::limiter::policy_state_wf(
                    #[trigger] crate::limiter::psm_views(p.0@)[m],
                )),
            None => dec_states(b@, i as int) is None,
        },
{
    match rd_u64(b, i) {
        None => None,
        Some((n, j0)) => {
            let mut acc: Vec<PolicyState> = Vec::new();
            let mut cur = j0;
            let mut j: u64 = 0;
            proof {
                assert(crate::limiter::psm_views(acc@) =~= Seq::<PolicyStateModel>::empty());
            }
            while j < n
                invariant
                    i < cur <= b@.len(),
                    0 <= j <= n,
                    forall|m: int|
                        0 <= m < acc@.len() ==> crate::limiter::policy_state_wf(
                            #[trigger] crate::limiter::psm_views(acc@)[m],
                        ),
                    ({
                        let whole = dec_states_n(b@, j0 as int, n as int);
                        match dec_states_n(b@, cur as int, (n - j) as int) {
                            None => whole is None,
                            Some(t) => whole == Some(
                                (crate::limiter::psm_views(acc@) + t.0, t.1),
                            ),
                        }
                    }),
                decreases n - j,
            {
                match rd_state(b, cur) {
                    None => {
                        return None;
                    },
                    Some((ps, next)) => {
                        let ghost accprev = acc@;
                        let ghost psv = ps@;
                        acc.push(ps);
                        proof {
                            assert(crate::limiter::psm_views(acc@)
                                =~= crate::limiter::psm_views(accprev).push(psv));
                            assert(forall|t0: Seq<PolicyStateModel>|
                                crate::limiter::psm_views(accprev) + (seq![psv] + t0)
                                    =~= crate::limiter::psm_views(acc@) + t0);
                        }
                        cur = next;
                    },
                }
                j += 1;
            }
            proof {
                assert(crate::limiter::psm_views(acc@) + Seq::<PolicyStateModel>::empty()
                    =~= crate::limiter::psm_views(acc@));
            }
            Some((acc, cur))
        },
    }
}

#[verifier::opaque]
pub open spec fn enc_metrics(m: Metrics) -> Seq<u8> {
    enc_u64(m.checks_total) + enc_u64(m.allowed_total) + enc_u64(m.denied_total)
}

pub open spec fn dec_metrics(b: Seq<u8>, i: int) -> Option<(Metrics, int)> {
    match dec_u64(b, i) {
        None => None,
        Some((checks_total, j1)) => match dec_u64(b, j1) {
            None => None,
            Some((allowed_total, j2)) => match dec_u64(b, j2) {
                None => None,
                Some((denied_total, j3)) => if allowed_total <= checks_total && denied_total
                    == checks_total - allowed_total {
                    Some((Metrics { checks_total, allowed_total, denied_total }, j3))
                } else {
                    None
                },
            },
        },
    }
}

#[verifier::rlimit(100)]
proof fn lemma_dec_enc_metrics(m: Metrics, pre: Seq<u8>, suf: Seq<u8>)
    requires
        crate::metrics::metrics_wf(m),
    ensures
        dec_metrics(pre + enc_metrics(m) + suf, pre.len() as int) == Some(
            (m, (pre.len() + enc_metrics(m).len()) as int),
        ),
{
    reveal(enc_metrics);
    let b = pre + enc_metrics(m) + suf;
    let e1 = enc_u64(m.checks_total);
    let e2 = enc_u64(m.allowed_total);
    let e3 = enc_u64(m.denied_total);
    assert(b =~= pre + e1 + (e2 + e3 + suf));
    lemma_dec_enc_u64(m.checks_total, pre, e2 + e3 + suf);
    let p1 = pre + e1;
    assert(b =~= p1 + e2 + (e3 + suf));
    lemma_dec_enc_u64(m.allowed_total, p1, e3 + suf);
    let p2 = p1 + e2;
    assert(b =~= p2 + e3 + suf);
    lemma_dec_enc_u64(m.denied_total, p2, suf);
    assert(m == (Metrics {
        checks_total: m.checks_total,
        allowed_total: m.allowed_total,
        denied_total: m.denied_total,
    }));
}

fn wr_metrics(buf: &mut Vec<u8>, m: &Metrics)
    ensures
        final(buf)@ == old(buf)@ + enc_metrics(*m),
{
    proof { reveal(enc_metrics); }
    wr_u64(buf, m.checks_total);
    wr_u64(buf, m.allowed_total);
    wr_u64(buf, m.denied_total);
    proof {
        assert(buf@ =~= old(buf)@ + enc_metrics(*m));
    }
}

fn rd_metrics(b: &[u8], i: usize) -> (r: Option<(Metrics, usize)>)
    ensures
        match r {
            Some(p) => dec_metrics(b@, i as int) == Some((p.0, p.1 as int)) && i < p.1 <= b@.len()
                && crate::metrics::metrics_wf(p.0),
            None => dec_metrics(b@, i as int) is None,
        },
{
    match rd_u64(b, i) {
        None => None,
        Some((checks_total, j1)) => match rd_u64(b, j1) {
            None => None,
            Some((allowed_total, j2)) => match rd_u64(b, j2) {
                None => None,
                Some((denied_total, j3)) => if allowed_total <= checks_total && denied_total
                    == checks_total - allowed_total {
                    Some((Metrics { checks_total, allowed_total, denied_total }, j3))
                } else {
                    None
                },
            },
        },
    }
}

fn rd_opt_str(b: &[u8], i: usize) -> (r: Option<(Option<String>, usize)>)
    ensures
        match r {
            Some(p) => dec_opt_str(b@, i as int) == Some(
                (crate::config::opt_text(p.0), p.1 as int),
            ) && i < p.1 <= b@.len(),
            None => dec_opt_str(b@, i as int) is None,
        },
{
    match rd_u8(b, i) {
        None => None,
        Some((t, j)) => if t == 0 {
            Some((None, j))
        } else if t == 1 {
            match rd_str(b, j) {
                None => None,
                Some((s, k)) => Some((Some(s), k)),
            }
        } else {
            None
        },
    }
}

#[verifier::ext_equal]
pub struct HeaderModel {
    pub k0: u64,
    pub k1: u64,
    pub key_secret: Option<Seq<char>>,
    pub slices: Option<u32>,
    pub sketch_width: Option<u32>,
    pub sketch_depth: Option<u32>,
    pub top_k: Option<u32>,
    pub shard_a_hot_capacity: Option<u32>,
    pub admission_hits_to_promote: Option<u32>,
}

pub open spec fn header_of(m: EngineModel) -> HeaderModel {
    HeaderModel {
        k0: m.k0,
        k1: m.k1,
        key_secret: m.key_secret,
        slices: m.slices,
        sketch_width: m.sketch_width,
        sketch_depth: m.sketch_depth,
        top_k: m.top_k,
        shard_a_hot_capacity: m.shard_a_hot_capacity,
        admission_hits_to_promote: m.admission_hits_to_promote,
    }
}

pub open spec fn enc_opts(
    o: (Option<u32>, Option<u32>, Option<u32>, Option<u32>, Option<u32>, Option<u32>),
) -> Seq<u8> {
    enc_opt_u32(o.0) + enc_opt_u32(o.1) + enc_opt_u32(o.2) + enc_opt_u32(o.3) + enc_opt_u32(o.4)
        + enc_opt_u32(o.5)
}

#[verifier::opaque]
pub open spec fn dec_opts(b: Seq<u8>, i: int) -> Option<
    ((Option<u32>, Option<u32>, Option<u32>, Option<u32>, Option<u32>, Option<u32>), int),
> {
    match dec_opt_u32(b, i) {
        None => None,
        Some((o0, j0)) => match dec_opt_u32(b, j0) {
            None => None,
            Some((o1, j1)) => match dec_opt_u32(b, j1) {
                None => None,
                Some((o2, j2)) => match dec_opt_u32(b, j2) {
                    None => None,
                    Some((o3, j3)) => match dec_opt_u32(b, j3) {
                        None => None,
                        Some((o4, j4)) => match dec_opt_u32(b, j4) {
                            None => None,
                            Some((o5, j5)) => Some(((o0, o1, o2, o3, o4, o5), j5)),
                        },
                    },
                },
            },
        },
    }
}

#[verifier::rlimit(100)]
proof fn lemma_dec_enc_opts(
    o: (Option<u32>, Option<u32>, Option<u32>, Option<u32>, Option<u32>, Option<u32>),
    pre: Seq<u8>,
    suf: Seq<u8>,
)
    ensures
        dec_opts(pre + enc_opts(o) + suf, pre.len() as int) == Some(
            (o, (pre.len() + enc_opts(o).len()) as int),
        ),
{
    reveal(dec_opts);
    let b = pre + enc_opts(o) + suf;
    let e1 = enc_opt_u32(o.0);
    let e2 = enc_opt_u32(o.1);
    let e3 = enc_opt_u32(o.2);
    let e4 = enc_opt_u32(o.3);
    let e5 = enc_opt_u32(o.4);
    let e6 = enc_opt_u32(o.5);
    let s6 = suf;
    let s5 = e6 + s6;
    let s4 = e5 + s5;
    let s3 = e4 + s4;
    let s2 = e3 + s3;
    let s1 = e2 + s2;
    assert(b =~= pre + e1 + s1);
    lemma_dec_enc_opt_u32(o.0, pre, s1);
    let p1 = pre + e1;
    assert(b =~= p1 + e2 + s2);
    lemma_dec_enc_opt_u32(o.1, p1, s2);
    let p2 = p1 + e2;
    assert(b =~= p2 + e3 + s3);
    lemma_dec_enc_opt_u32(o.2, p2, s3);
    let p3 = p2 + e3;
    assert(b =~= p3 + e4 + s4);
    lemma_dec_enc_opt_u32(o.3, p3, s4);
    let p4 = p3 + e4;
    assert(b =~= p4 + e5 + s5);
    lemma_dec_enc_opt_u32(o.4, p4, s5);
    let p5 = p4 + e5;
    assert(b =~= p5 + e6 + s6);
    lemma_dec_enc_opt_u32(o.5, p5, s6);
    assert(o == (o.0, o.1, o.2, o.3, o.4, o.5));
}

fn wr_opts(buf: &mut Vec<u8>, f: &Fluxgate)
    ensures
        final(buf)@ == old(buf)@ + enc_opts(
            (
                f.slices,
                f.sketch_width,
                f.sketch_depth,
                f.top_k,
                f.shard_a_hot_capacity,
                f.admission_hits_to_promote,
            ),
        ),
{
    wr_opt_u32(buf, &f.slices);
    wr_opt_u32(buf, &f.sketch_width);
    wr_opt_u32(buf, &f.sketch_depth);
    wr_opt_u32(buf, &f.top_k);
    wr_opt_u32(buf, &f.shard_a_hot_capacity);
    wr_opt_u32(buf, &f.admission_hits_to_promote);
    proof {
        assert(buf@ =~= old(buf)@ + enc_opts(
            (
                f.slices,
                f.sketch_width,
                f.sketch_depth,
                f.top_k,
                f.shard_a_hot_capacity,
                f.admission_hits_to_promote,
            ),
        ));
    }
}

#[verifier::rlimit(100)]
fn rd_opts(b: &[u8], i: usize) -> (r: Option<
    ((Option<u32>, Option<u32>, Option<u32>, Option<u32>, Option<u32>, Option<u32>), usize),
>)
    ensures
        match r {
            Some(p) => dec_opts(b@, i as int) == Some((p.0, p.1 as int)) && i < p.1 <= b@.len(),
            None => dec_opts(b@, i as int) is None,
        },
{
    proof {
        reveal(dec_opts);
    }
    match rd_opt_u32(b, i) {
        None => None,
        Some((o0, j0)) => match rd_opt_u32(b, j0) {
            None => None,
            Some((o1, j1)) => match rd_opt_u32(b, j1) {
                None => None,
                Some((o2, j2)) => match rd_opt_u32(b, j2) {
                    None => None,
                    Some((o3, j3)) => match rd_opt_u32(b, j3) {
                        None => None,
                        Some((o4, j4)) => match rd_opt_u32(b, j4) {
                            None => None,
                            Some((o5, j5)) => Some(((o0, o1, o2, o3, o4, o5), j5)),
                        },
                    },
                },
            },
        },
    }
}

#[verifier::opaque]
pub open spec fn enc_header(h: HeaderModel) -> Seq<u8> {
    enc_u64(h.k0) + enc_u64(h.k1) + enc_opt_str(h.key_secret) + enc_opts(
        (
            h.slices,
            h.sketch_width,
            h.sketch_depth,
            h.top_k,
            h.shard_a_hot_capacity,
            h.admission_hits_to_promote,
        ),
    )
}

#[verifier::opaque]
pub open spec fn dec_header(b: Seq<u8>, i: int) -> Option<(HeaderModel, int)> {
    match dec_u64(b, i) {
        None => None,
        Some((k0, j1)) => match dec_u64(b, j1) {
            None => None,
            Some((k1, j2)) => match dec_opt_str(b, j2) {
                None => None,
                Some((key_secret, j3)) => match dec_opts(b, j3) {
                    None => None,
                    Some((o, j4)) => Some(
                        (
                            HeaderModel {
                                k0,
                                k1,
                                key_secret,
                                slices: o.0,
                                sketch_width: o.1,
                                sketch_depth: o.2,
                                top_k: o.3,
                                shard_a_hot_capacity: o.4,
                                admission_hits_to_promote: o.5,
                            },
                            j4,
                        ),
                    ),
                },
            },
        },
    }
}

pub open spec fn header_fits(h: HeaderModel) -> bool {
    match h.key_secret {
        Some(s) => str_fits(s),
        None => true,
    }
}

#[verifier::rlimit(100)]
proof fn lemma_dec_enc_header(h: HeaderModel, pre: Seq<u8>, suf: Seq<u8>)
    requires
        header_fits(h),
    ensures
        dec_header(pre + enc_header(h) + suf, pre.len() as int) == Some(
            (h, (pre.len() + enc_header(h).len()) as int),
        ),
{
    reveal(enc_header);
    reveal(dec_header);
    let b = pre + enc_header(h) + suf;
    let e1 = enc_u64(h.k0);
    let e2 = enc_u64(h.k1);
    let e3 = enc_opt_str(h.key_secret);
    let o = (
        h.slices,
        h.sketch_width,
        h.sketch_depth,
        h.top_k,
        h.shard_a_hot_capacity,
        h.admission_hits_to_promote,
    );
    let e4 = enc_opts(o);
    let s4 = suf;
    let s3 = e4 + s4;
    let s2 = e3 + s3;
    let s1 = e2 + s2;
    assert(b =~= pre + e1 + s1);
    lemma_dec_enc_u64(h.k0, pre, s1);
    let p1 = pre + e1;
    assert(b =~= p1 + e2 + s2);
    lemma_dec_enc_u64(h.k1, p1, s2);
    let p2 = p1 + e2;
    assert(b =~= p2 + e3 + s3);
    lemma_dec_enc_opt_str(h.key_secret, p2, s3);
    let p3 = p2 + e3;
    assert(b =~= p3 + e4 + s4);
    lemma_dec_enc_opts(o, p3, s4);
}

fn wr_header(buf: &mut Vec<u8>, f: &Fluxgate)
    ensures
        final(buf)@ == old(buf)@ + enc_header(header_of(f@)),
{
    proof {
        reveal(enc_header);
    }
    wr_u64(buf, f.key_builder.k0);
    wr_u64(buf, f.key_builder.k1);
    wr_opt_str(buf, &f.key_secret);
    wr_opts(buf, f);
    proof {
        assert(buf@ =~= old(buf)@ + enc_header(header_of(f@)));
    }
}

struct SnapHeader {
    k0: u64,
    k1: u64,
    key_secret: Option<String>,
    slices: Option<u32>,
    sketch_width: Option<u32>,
    sketch_depth: Option<u32>,
    top_k: Option<u32>,
    shard_a_hot_capacity: Option<u32>,
    admission_hits_to_promote: Option<u32>,
}

impl View for SnapHeader {
    type V = HeaderModel;

    closed spec fn view(&self) -> HeaderModel {
        HeaderModel {
            k0: self.k0,
            k1: self.k1,
            key_secret: crate::config::opt_text(self.key_secret),
            slices: self.slices,
            sketch_width: self.sketch_width,
            sketch_depth: self.sketch_depth,
            top_k: self.top_k,
            shard_a_hot_capacity: self.shard_a_hot_capacity,
            admission_hits_to_promote: self.admission_hits_to_promote,
        }
    }
}

fn rd_header(b: &[u8], i: usize) -> (r: Option<(SnapHeader, usize)>)
    ensures
        match r {
            Some(p) => dec_header(b@, i as int) == Some((p.0@, p.1 as int)) && i < p.1 <= b@.len(),
            None => dec_header(b@, i as int) is None,
        },
{
    proof {
        reveal(dec_header);
    }
    match rd_u64(b, i) {
        None => None,
        Some((k0, j1)) => match rd_u64(b, j1) {
            None => None,
            Some((k1, j2)) => match rd_opt_str(b, j2) {
                None => None,
                Some((key_secret, j3)) => match rd_opts(b, j3) {
                    None => None,
                    Some((o, j4)) => Some(
                        (
                            SnapHeader {
                                k0,
                                k1,
                                key_secret,
                                slices: o.0,
                                sketch_width: o.1,
                                sketch_depth: o.2,
                                top_k: o.3,
                                shard_a_hot_capacity: o.4,
                                admission_hits_to_promote: o.5,
                            },
                            j4,
                        ),
                    ),
                },
            },
        },
    }
}

/// The wire form of the whole engine state.
pub open spec fn enc_engine(m: EngineModel) -> Seq<u8> {
    enc_header(header_of(m)) + enc_states(m.policies) + enc_metrics(m.metrics)
}

/// The engine state a byte stream decodes to, if it is a well-formed
/// snapshot consumed in full.
pub open spec fn dec_engine(b: Seq<u8>) -> Option<EngineModel> {
    match dec_header(b, 0) {
        None => None,
        Some((h, j1)) => match dec_states(b, j1) {
            None => None,
            Some((policies, j2)) => match dec_metrics(b, j2) {
                None => None,
                Some((metrics, j3)) => if j3 == b.len() {
                    Some(
                        EngineModel {
                            k0: h.k0,
                            k1: h.k1,
                            policies,
                            metrics,
                            key_secret: h.key_secret,
                            slices: h.slices,
                            sketch_width: h.sketch_width,
                            sketch_depth: h.sketch_depth,
                            top_k: h.top_k,
                            shard_a_hot_capacity: h.shard_a_hot_capacity,
                            admission_hits_to_promote: h.admission_hits_to_promote,
                        },
                    )
                } else {
                    None
                },
            },
        },
    }
}

/// Whether every piece of the state is small enough for its length to
/// ride in the wire format's integer fields. Machine-built states always
/// are; the bound matters only for the round-trip statement, which
/// speaks of arbitrary model values.
pub open spec fn engine_bounded(m: EngineModel) -> bool {
    header_fits(header_of(m)) && states_fit(m.policies)
}

/// Snapshot round trip: decoding an encoded well-formed engine state
/// yields exactly that state. Every check sequence after a restore of a
/// snapshot therefore behaves as it would have on the snapshotted
/// engine, since checks are a function of the state.
#[verifier::rlimit(100)]
pub proof fn lemma_snapshot_roundtrip(m: EngineModel)
    requires
        engine_wf(m),
        engine_bounded(m),
    ensures
        dec_engine(enc_engine(m)) == Some(m),
{
    let b = enc_engine(m);
    let h = header_of(m);
    let e1 = enc_header(h);
    let e2 = enc_states(m.policies);
    let e3 = enc_metrics(m.metrics);
    let p0 = Seq::<u8>::empty();
    assert(b =~= p0 + e1 + (e2 + e3));
    lemma_dec_enc_header(h, p0, e2 + e3);
    let p1 = p0 + e1;
    assert(b =~= p1 + e2 + e3);
    assert(forall|q: int|
        0 <= q < m.policies.len() ==> tbl_unique((#[trigger] m.policies[q]).buckets));
    lemma_dec_enc_states(m.policies, p1, e3);
    let p2 = p1 + e2;
    assert(b =~= p2 + e3 + Seq::<u8>::empty());
    lemma_dec_enc_metrics(m.metrics, p2, Seq::<u8>::empty());
    assert(b.len() == p2.len() + e3.len());
    assert(dec_engine(b) == Some(m));
}

impl Fluxgate {
    /// Serialize the entire engine state into the snapshot wire form.
    pub fn snapshot(&self) -> (r: Result<Vec<u8>, FluxgateError>)
        ensures
            r is Ok,
            r->Ok_0@ == enc_engine(self@),
    {
        let mut buf: Vec<u8> = Vec::new();
        wr_header(&mut buf, self);
        wr_states(&mut buf, &self.policies);
        wr_metrics(&mut buf, &self.metrics);
        proof {
            assert(buf@ =~= enc_engine(self@));
        }
        Ok(buf)
    }

    /// Decode a snapshot and replace the whole engine state with it; on
    /// a malformed payload fail with a serialization error and leave the
    /// current state untouched and authoritative.
    pub fn restore(&mut self, bytes: &[u8]) -> (r: Result<(), FluxgateError>)
        ensures
            r is Ok <==> dec_engine(bytes@) is Some,
            r is Ok ==> final(self)@ == dec_engine(bytes@).unwrap() && final(self).wf(),
            r is Err ==> *final(self) == *old(self) && r->Err_0 is Serialization,
    {
        match rd_engine(bytes) {
            Some(engine) => {
                *self = engine;
                Ok(())
            },
            None => Err(
                FluxgateError::Serialization("snapshot payload could not be decoded".to_owned()),
            ),
        }
    }
}

fn rd_engine(b: &[u8]) -> (r: Option<Fluxgate>)
    ensures
        match r {
            Some(f) => dec_engine(b@) == Some(f@) && f.wf(),
            None => dec_engine(b@) is None,
        },
{
    match rd_header(b, 0) {
        None => None,
        Some((h, j1)) => match rd_states(b, j1) {
            None => None,
            Some((policies, j2)) => match rd_metrics(b, j2) {
                None => None,
                Some((metrics, j3)) => {
                    if j3 == b.len() {
                        let SnapHeader {
                            k0,
                            k1,
                            key_secret,
                            slices,
                            sketch_width,
                            sketch_depth,
                            top_k,
                            shard_a_hot_capacity,
                            admission_hits_to_promote,
                        } = h;
                        Some(
                            Fluxgate {
                                key_builder: KeyBuilder { k0, k1 },
                                policies,
                                metrics,
                                key_secret,
                                slices,
                                sketch_width,
                                sketch_depth,
                                top_k,
                                shard_a_hot_capacity,
                                admission_hits_to_promote,
                            },
                        )
                    } else {
                        None
                    }
                },
            },
        },
    }
}

} // verus!
