//! The source race: classifying what one attempt against one source
//! produced, and committing the outcomes of a whole race to a single
//! per-family result. The first validated success wins; when every source
//! fails, the per-source diagnostics are joined into one combined error.

use vstd::prelude::*;
use crate::AddressFamily;
use crate::text::{chars_vec, dec_chars, string_of_chars, trim_chars, trim_spec, u16_dec_chars};
use crate::validator::{is_valid_literal, validate_chars};

verus! {

/// What one attempt against one source was observed to do.
pub enum AttemptEvent {
    /// A response arrived within the attempt bound.
    Response { status: u16, body: String },
    /// The connection, send, or receive failed.
    TransportFailure { detail: String },
    /// The attempt exceeded the per-attempt time bound.
    TimedOut,
}

/// The result of one attempt: a validated address literal, or a
/// source-attributed diagnostic.
pub enum ResolutionOutcome {
    Success(String),
    Failure(String),
}

/// The value produced for one family after racing. At most one of the two
/// fields is populated; both stay empty only for a family whose resolution
/// was skipped.
pub struct FamilyResult {
    pub address: Option<String>,
    pub error: Option<String>,
}

/// A committed family result never carries both an address and an error.
pub open spec fn family_result_wf(r: FamilyResult) -> bool {
    !(r.address is Some && r.error is Some)
}

pub open spec fn opt_chars(o: Option<String>) -> Option<Seq<char>> {
    match o {
        Option::Some(s) => Option::Some(s@),
        Option::None => Option::None,
    }
}

pub open spec fn family_name(family: AddressFamily) -> Seq<char> {
    match family {
        AddressFamily::V4 => "IPv4"@,
        AddressFamily::V6 => "IPv6"@,
    }
}

/// An HTTP status code counted as success.
pub open spec fn status_ok(status: u16) -> bool {
    200 <= status < 300
}

pub open spec fn msg_timeout(src: Seq<char>) -> Seq<char> {
    src + ": timed out"@
}

pub open spec fn msg_transport(src: Seq<char>, detail: Seq<char>) -> Seq<char> {
    src + ": transport failure: "@ + detail
}

pub open spec fn msg_status(src: Seq<char>, status: int) -> Seq<char> {
    src + ": HTTP status "@ + dec_chars(status)
}

pub open spec fn msg_invalid(src: Seq<char>, family: AddressFamily) -> Seq<char> {
    src + ": invalid "@ + family_name(family) + " literal received"@
}

pub open spec fn no_sources_msg() -> Seq<char> {
    "no sources configured"@
}

/// The outcome one attempt classifies to, from what was observed.
pub open spec fn classify_spec(src: Seq<char>, family: AddressFamily, event: AttemptEvent) -> (
    bool,
    Seq<char>,
) {
    match event {
        AttemptEvent::TimedOut => (false, msg_timeout(src)),
        AttemptEvent::TransportFailure { detail } => (false, msg_transport(src, detail@)),
        AttemptEvent::Response { status, body } => {
            if !status_ok(status) {
                (false, msg_status(src, status as int))
            } else if is_valid_literal(trim_spec(body@), family) {
                (true, trim_spec(body@))
            } else {
                (false, msg_invalid(src, family))
            }
        },
    }
}

pub open spec fn outcome_chars(o: ResolutionOutcome) -> Seq<char> {
    match o {
        ResolutionOutcome::Success(v) => v@,
        ResolutionOutcome::Failure(m) => m@,
    }
}

/// Classifies what one attempt against `source` produced: a response body
/// is trimmed and validated for the family; everything else becomes a
/// source-attributed diagnostic whose text tells the failure kinds apart.
pub fn classify_attempt(source: &str, family: AddressFamily, event: AttemptEvent) -> (r:
    ResolutionOutcome)
    ensures
        (r is Success) == classify_spec(source@, family, event).0,
        outcome_chars(r) == classify_spec(source@, family, event).1,
{
    match event {
        AttemptEvent::TimedOut => {
            let mut m = source.to_owned();
            m.append(": timed out");
            ResolutionOutcome::Failure(m)
        },
        AttemptEvent::TransportFailure { detail } => {
            let mut m = source.to_owned();
            m.append(": transport failure: ");
            m.append(detail.as_str());
            ResolutionOutcome::Failure(m)
        },
        AttemptEvent::Response { status, body } => {
            if status < 200 || status >= 300 {
                let mut m = source.to_owned();
                m.append(": HTTP status ");
                let digits = u16_dec_chars(status);
                let ds = string_of_chars(&digits);
                m.append(ds.as_str());
                ResolutionOutcome::Failure(m)
            } else {
                let bc = chars_vec(body.as_str());
                let trimmed = trim_chars(&bc);
                if validate_chars(&trimmed, family) {
                    ResolutionOutcome::Success(string_of_chars(&trimmed))
                } else {
                    let mut m = source.to_owned();
                    m.append(": invalid ");
                    match family {
                        AddressFamily::V4 => m.append("IPv4"),
                        AddressFamily::V6 => m.append("IPv6"),
                    }
                    m.append(" literal received");
                    ResolutionOutcome::Failure(m)
                }
            }
        },
    }
}

pub open spec fn has_success(outs: Seq<ResolutionOutcome>) -> bool {
    exists|i: int| 0 <= i < outs.len() && outs[i] is Success
}

/// Index of the first successful outcome, or -1 when there is none.
pub open spec fn first_success(outs: Seq<ResolutionOutcome>) -> int
    decreases outs.len(),
{
    if outs.len() == 0 {
        -1
    } else if outs[0] is Success {
        0
    } else {
        let r = first_success(outs.skip(1));
        if r == -1 {
            -1
        } else {
            r + 1
        }
    }
}

pub proof fn lemma_first_success_at(outs: Seq<ResolutionOutcome>, i: int)
    requires
        0 <= i < outs.len(),
        outs[i] is Success,
        forall|j: int| 0 <= j < i ==> !(#[trigger] outs[j] is Success),
    ensures
        first_success(outs) == i,
    decreases i,
{
    if i == 0 {
    } else {
        assert(!(outs[0] is Success));
        assert(outs.skip(1)[i - 1] is Success);
        assert(forall|j: int| 0 <= j < i - 1 ==> !(#[trigger] outs.skip(1)[j] is Success));
        lemma_first_success_at(outs.skip(1), i - 1);
    }
}

/// The diagnostics carried by a sequence of outcomes.
pub open spec fn diags_of(outs: Seq<ResolutionOutcome>) -> Seq<Seq<char>> {
    outs.map_values(|o: ResolutionOutcome| outcome_chars(o))
}

/// The combined error text: the diagnostics joined with "; ".
pub open spec fn join_msgs(ms: Seq<Seq<char>>) -> Seq<char>
    decreases ms.len(),
{
    if ms.len() == 0 {
        Seq::<char>::empty()
    } else if ms.len() == 1 {
        ms[0]
    } else {
        join_msgs(ms.drop_last()) + "; "@ + ms.last()
    }
}

/// The address a completed race commits for the family.
pub open spec fn race_addr_spec(n_sources: int, outs: Seq<ResolutionOutcome>) -> Option<
    Seq<char>,
> {
    if n_sources == 0 {
        Option::None
    } else if has_success(outs) {
        Option::Some(outcome_chars(outs[first_success(outs)]))
    } else {
        Option::None
    }
}

/// The error a completed race commits for the family.
pub open spec fn race_err_spec(n_sources: int, outs: Seq<ResolutionOutcome>) -> Option<
    Seq<char>,
> {
    if n_sources == 0 {
        Option::Some(no_sources_msg())
    } else if has_success(outs) {
        Option::None
    } else {
        Option::Some(join_msgs(diags_of(outs)))
    }
}

/// Commits a race: `outcomes` holds, in completion order, what each
/// attempt produced, cut off after a success (abandoned attempts report
/// nothing). An empty source list fails immediately with a fixed message;
/// the first success wins; otherwise every diagnostic is joined into one
/// combined error.
pub fn race_decide(n_sources: usize, outcomes: Vec<ResolutionOutcome>) -> (r: FamilyResult)
    requires
        n_sources == 0 ==> outcomes@.len() == 0,
        n_sources > 0 ==> 1 <= outcomes@.len() <= n_sources,
    ensures
        opt_chars(r.address) == race_addr_spec(n_sources as int, outcomes@),
        opt_chars(r.error) == race_err_spec(n_sources as int, outcomes@),
        family_result_wf(r),
{
    if n_sources == 0 {
        let m = "no sources configured".to_owned();
        return FamilyResult { address: Option::None, error: Option::Some(m) };
    }
    let mut i: usize = 0;
    while i < outcomes.len()
        invariant
            n_sources > 0,
            0 <= i <= outcomes@.len(),
            forall|j: int| 0 <= j < i ==> !(#[trigger] outcomes@[j] is Success),
        decreases outcomes@.len() - i,
    {
        match &outcomes[i] {
            ResolutionOutcome::Success(v) => {
                let addr = v.clone();
                proof {
                    assert(outcomes@[i as int] is Success);
                    assert(has_success(outcomes@));
                    lemma_first_success_at(outcomes@, i as int);
                }
                return FamilyResult { address: Option::Some(addr), error: Option::None };
            },
            ResolutionOutcome::Failure(_) => {},
        }
        i = i + 1;
    }
    assert(!has_success(outcomes@));
    let mut msg = String::new();
    let mut k: usize = 0;
    proof {
        assert(diags_of(outcomes@).take(0) =~= Seq::<Seq<char>>::empty());
    }
    while k < outcomes.len()
        invariant
            0 <= k <= outcomes@.len(),
            forall|j: int| 0 <= j < outcomes@.len() ==> !(#[trigger] outcomes@[j] is Success),
            msg@ == join_msgs(diags_of(outcomes@).take(k as int)),
        decreases outcomes@.len() - k,
    {
        let ghost pre = diags_of(outcomes@).take(k as int);
        if k > 0 {
            msg.append("; ");
        }
        match &outcomes[k] {
            ResolutionOutcome::Success(_) => {
                proof {
                    assert(false);
                }
            },
            ResolutionOutcome::Failure(d) => {
                msg.append(d.as_str());
            },
        }
        proof {
            let cur = diags_of(outcomes@).take(k as int + 1);
            assert(cur.drop_last() =~= pre);
            assert(cur.last() == outcome_chars(outcomes@[k as int]));
            if k == 0 {
                assert(cur.len() == 1);
                assert(msg@ =~= cur[0]);
            } else {
                assert(msg@ =~= join_msgs(pre) + "; "@ + cur.last());
            }
        }
        k = k + 1;
    }
    proof {
        assert(diags_of(outcomes@).take(outcomes@.len() as int) =~= diags_of(outcomes@));
    }
    FamilyResult { address: Option::None, error: Option::Some(msg) }
}

/// A string occurs contiguously inside another.
pub open spec fn is_substring(hay: Seq<char>, needle: Seq<char>) -> bool {
    exists|k: int|
        0 <= k && k + needle.len() <= hay.len() && #[trigger] hay.subrange(
            k,
            k + needle.len() as int,
        ) == needle
}

proof fn lemma_substring_extends_right(a: Seq<char>, b: Seq<char>, x: Seq<char>)
    requires
        is_substring(a, x),
    ensures
        is_substring(a + b, x),
{
    let k = choose|k: int|
        0 <= k && k + x.len() <= a.len() && #[trigger] a.subrange(k, k + x.len() as int) == x;
    assert((a + b).subrange(k, k + x.len() as int) =~= a.subrange(k, k + x.len() as int));
}

/// Every joined message occurs as a substring of the join.
pub proof fn lemma_join_contains_each(ms: Seq<Seq<char>>, i: int)
    requires
        0 <= i < ms.len(),
    ensures
        is_substring(join_msgs(ms), ms[i]),
    decreases ms.len(),
{
    if ms.len() == 1 {
        assert(join_msgs(ms) == ms[0]);
        assert(i == 0);
        assert(join_msgs(ms).subrange(0, 0 + ms[i].len() as int) =~= ms[i]);
    } else {
        let body = join_msgs(ms.drop_last()) + "; "@;
        if i == ms.len() - 1 {
            let whole = body + ms.last();
            assert(join_msgs(ms) == whole);
            assert(ms.last() == ms[i]);
            assert(whole.subrange(
                body.len() as int,
                body.len() as int + ms[i].len() as int,
            ) =~= ms[i]);
        } else {
            lemma_join_contains_each(ms.drop_last(), i);
            assert(ms.drop_last()[i] == ms[i]);
            lemma_substring_extends_right(join_msgs(ms.drop_last()), "; "@, ms[i]);
            assert(join_msgs(ms.drop_last()) + "; "@ + ms.last() =~= (join_msgs(ms.drop_last())
                + "; "@) + ms.last());
            lemma_substring_extends_right(join_msgs(ms.drop_last()) + "; "@, ms.last(), ms[i]);
        }
    }
}

/// One validated winner decides the race, wherever it stands among the
/// outcomes: when exactly one outcome is a success, the committed address
/// is its value, whatever the completion order of the failures around it.
pub proof fn lemma_race_single_winner(n_sources: int, outs: Seq<ResolutionOutcome>, i: int)
    requires
        n_sources > 0,
        0 <= i < outs.len(),
        outs[i] is Success,
        forall|j: int| 0 <= j < outs.len() && j != i ==> !(#[trigger] outs[j] is Success),
    ensures
        race_addr_spec(n_sources, outs) == Option::Some(outcome_chars(outs[i])),
        race_err_spec(n_sources, outs) == Option::<Seq<char>>::None,
{
    lemma_first_success_at(outs, i);
}

/// When every attempt fails, the race commits no address, and the combined
/// error holds every individual source's diagnostic as a substring — the
/// joined content does not depend on which diagnostic is inspected.
pub proof fn lemma_race_all_fail_reports_all(n_sources: int, outs: Seq<ResolutionOutcome>, i: int)
    requires
        n_sources > 0,
        0 <= i < outs.len(),
        forall|j: int| 0 <= j < outs.len() ==> !(#[trigger] outs[j] is Success),
    ensures
        race_addr_spec(n_sources, outs) == Option::<Seq<char>>::None,
        race_err_spec(n_sources, outs) == Option::Some(join_msgs(diags_of(outs))),
        is_substring(join_msgs(diags_of(outs)), outcome_chars(outs[i])),
{
    assert(!has_success(outs));
    assert(diags_of(outs)[i] == outcome_chars(outs[i]));
    lemma_join_contains_each(diags_of(outs), i);
}

} // verus!
