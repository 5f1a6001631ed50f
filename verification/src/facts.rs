//! Assembling the aggregate snapshot: the per-family IP facts, the
//! user and group databases parsed from their colon-separated records,
//! the timezone fact, and the orchestrator's IPv6 gate.

use vstd::prelude::*;
use crate::json::{epairs, jspec_of, JsonSpec, JsonValue};
use crate::probe::CapabilityState;
use crate::racer::{opt_chars, FamilyResult};
use crate::text::{
    chars_vec, split_at, split_at_exec, string_of_chars, trim_chars, trim_spec, views_of,
};

verus! {

/// Whether the orchestrator runs the IPv6 race at all: if and only if the
/// capability probe reported the family present.
pub fn should_race_ipv6(cap: &CapabilityState) -> (r: bool)
    ensures
        r == cap.present,
{
    cap.present
}

/// The IPv6 family result when capability is absent: no address and no
/// error — no attempt was made, so nothing is recorded.
pub fn skipped_family_result() -> (r: FamilyResult)
    ensures
        r.address is None,
        r.error is None,
{
    FamilyResult { address: Option::None, error: Option::None }
}

pub open spec fn opt_str_json(o: Option<Seq<char>>) -> JsonSpec {
    match o {
        Option::Some(s) => JsonSpec::Str(s),
        Option::None => JsonSpec::Null,
    }
}

pub open spec fn addr_or_empty(o: Option<Seq<char>>) -> Seq<char> {
    match o {
        Option::Some(s) => s,
        Option::None => Seq::<char>::empty(),
    }
}

/// The IP portion of the snapshot: resolved addresses (empty string when
/// none), per-family errors, the derived failed flags — true exactly when
/// the address is absent — and the probe's own read diagnostic.
pub open spec fn ip_facts_spec(
    a4: Option<Seq<char>>,
    e4: Option<Seq<char>>,
    a6: Option<Seq<char>>,
    e6: Option<Seq<char>>,
    probe_diag: Option<Seq<char>>,
) -> JsonSpec {
    JsonSpec::Obj(
        seq![
            ("public_ip"@, JsonSpec::Str(addr_or_empty(a4))),
            ("public_ipv6"@, JsonSpec::Str(addr_or_empty(a6))),
            ("error_ipv4"@, opt_str_json(e4)),
            ("error_ipv6"@, opt_str_json(e6)),
            ("failed_ipv4"@, JsonSpec::Bool(a4 is None)),
            ("failed_ipv6"@, JsonSpec::Bool(a6 is None)),
            ("ipv6_check_error"@, opt_str_json(probe_diag)),
        ],
    )
}

fn opt_str_value(o: Option<String>) -> (r: JsonValue)
    ensures
        jspec_of(r) == opt_str_json(opt_chars(o)),
{
    match o {
        Option::Some(s) => JsonValue::Str(s),
        Option::None => JsonValue::Null,
    }
}

fn addr_value(o: Option<String>) -> (r: JsonValue)
    ensures
        jspec_of(r) == JsonSpec::Str(addr_or_empty(opt_chars(o))),
{
    match o {
        Option::Some(s) => JsonValue::Str(s),
        Option::None => JsonValue::Str(String::new()),
    }
}

/// Builds the IP portion of the snapshot from the two family results and
/// the probe diagnostic.
pub fn build_ip_facts(ipv4: FamilyResult, ipv6: FamilyResult, probe_diag: Option<String>) -> (r:
    JsonValue)
    ensures
        jspec_of(r) == ip_facts_spec(
            opt_chars(ipv4.address),
            opt_chars(ipv4.error),
            opt_chars(ipv6.address),
            opt_chars(ipv6.error),
            opt_chars(probe_diag),
        ),
{
    let ghost spec_r = ip_facts_spec(
        opt_chars(ipv4.address),
        opt_chars(ipv4.error),
        opt_chars(ipv6.address),
        opt_chars(ipv6.error),
        opt_chars(probe_diag),
    );
    let failed4 = ipv4.address.is_none();
    let failed6 = ipv6.address.is_none();
    let mut es: Vec<(String, JsonValue)> = Vec::new();
    es.push(("public_ip".to_owned(), addr_value(ipv4.address)));
    es.push(("public_ipv6".to_owned(), addr_value(ipv6.address)));
    es.push(("error_ipv4".to_owned(), opt_str_value(ipv4.error)));
    es.push(("error_ipv6".to_owned(), opt_str_value(ipv6.error)));
    es.push(("failed_ipv4".to_owned(), JsonValue::Bool(failed4)));
    es.push(("failed_ipv6".to_owned(), JsonValue::Bool(failed6)));
    es.push(("ipv6_check_error".to_owned(), opt_str_value(probe_diag)));
    let r = JsonValue::Obj(es);
    proof {
        let lo = jspec_of(r)->Obj_0;
        let ro = spec_r->Obj_0;
        assert forall|j: int| 0 <= j < 7 implies lo[j] == ro[j] by {
            assert(lo[j] == (es@[j].0@, jspec_of(es@[j].1)));
        }
        assert(lo =~= ro);
        assert(jspec_of(r) =~~= spec_r);
    }
    r
}

/// The whole snapshot: IP facts, groups, users, and timezone, in the
/// order the run assembles them; the normalizer orders keys afterwards.
pub open spec fn aggregate_spec(
    ip: JsonSpec,
    groups: JsonSpec,
    users: JsonSpec,
    timezone: JsonSpec,
) -> JsonSpec {
    JsonSpec::Obj(
        seq![
            ("ip"@, ip),
            ("groups"@, groups),
            ("users"@, users),
            ("timezone"@, timezone),
        ],
    )
}

/// Builds the aggregate snapshot object.
pub fn build_aggregate(
    ip: JsonValue,
    groups: JsonValue,
    users: JsonValue,
    timezone: JsonValue,
) -> (r: JsonValue)
    ensures
        jspec_of(r) == aggregate_spec(
            jspec_of(ip),
            jspec_of(groups),
            jspec_of(users),
            jspec_of(timezone),
        ),
{
    let ghost spec_r = aggregate_spec(
        jspec_of(ip),
        jspec_of(groups),
        jspec_of(users),
        jspec_of(timezone),
    );
    let mut es: Vec<(String, JsonValue)> = Vec::new();
    es.push(("ip".to_owned(), ip));
    es.push(("groups".to_owned(), groups));
    es.push(("users".to_owned(), users));
    es.push(("timezone".to_owned(), timezone));
    let r = JsonValue::Obj(es);
    proof {
        let lo = jspec_of(r)->Obj_0;
        let ro = spec_r->Obj_0;
        assert forall|j: int| 0 <= j < 4 implies lo[j] == ro[j] by {
            assert(lo[j] == (es@[j].0@, jspec_of(es@[j].1)));
        }
        assert(lo =~= ro);
        assert(jspec_of(r) =~~= spec_r);
    }
    r
}

/// One user-database record: name, then uid, gid, comment, home and shell
/// from the colon-separated fields; a line with fewer than seven fields
/// is skipped.
pub open spec fn passwd_entry_spec(line: Seq<char>) -> Option<(Seq<char>, JsonSpec)> {
    let t = split_at(line, ':');
    if t.len() >= 7 {
        Option::Some(
            (
                t[0],
                JsonSpec::Obj(
                    seq![
                        ("uid"@, JsonSpec::Str(t[2])),
                        ("gid"@, JsonSpec::Str(t[3])),
                        ("comment"@, JsonSpec::Str(t[4])),
                        ("home"@, JsonSpec::Str(t[5])),
                        ("shell"@, JsonSpec::Str(t[6])),
                    ],
                ),
            ),
        )
    } else {
        Option::None
    }
}

/// The members named in a group record's final field, one string per
/// comma-separated name; absent field means no members.
pub open spec fn group_members_spec(t: Seq<Seq<char>>) -> Seq<JsonSpec> {
    if t.len() >= 4 {
        Seq::new(split_at(t[3], ',').len(), |i: int| JsonSpec::Str(split_at(t[3], ',')[i]))
    } else {
        Seq::<JsonSpec>::empty()
    }
}

/// One group-database record: name, then gid and the member list; a line
/// with fewer than three fields is skipped.
pub open spec fn group_entry_spec(line: Seq<char>) -> Option<(Seq<char>, JsonSpec)> {
    let t = split_at(line, ':');
    if t.len() >= 3 {
        Option::Some(
            (
                t[0],
                JsonSpec::Obj(
                    seq![
                        ("gid"@, JsonSpec::Str(t[2])),
                        ("group-list"@, JsonSpec::Arr(group_members_spec(t))),
                    ],
                ),
            ),
        )
    } else {
        Option::None
    }
}

/// Replaces the first entry keyed `k`, or appends one when the key is new.
pub open spec fn upsert(
    es: Seq<(Seq<char>, JsonSpec)>,
    k: Seq<char>,
    v: JsonSpec,
) -> Seq<(Seq<char>, JsonSpec)>
    decreases es.len(),
{
    if es.len() == 0 {
        seq![(k, v)]
    } else if es[0].0 == k {
        seq![(k, v)] + es.skip(1)
    } else {
        seq![es[0]] + upsert(es.skip(1), k, v)
    }
}

/// The database built from the lines in order: later records with an
/// already-seen key replace the earlier ones in place.
pub open spec fn db_spec(
    lines: Seq<Seq<char>>,
    entry_of: spec_fn(Seq<char>) -> Option<(Seq<char>, JsonSpec)>,
) -> Seq<(Seq<char>, JsonSpec)>
    decreases lines.len(),
{
    if lines.len() == 0 {
        Seq::<(Seq<char>, JsonSpec)>::empty()
    } else {
        let prev = db_spec(lines.drop_last(), entry_of);
        match entry_of(lines.last()) {
            Option::Some((k, v)) => upsert(prev, k, v),
            Option::None => prev,
        }
    }
}

proof fn lemma_upsert_at(es: Seq<(Seq<char>, JsonSpec)>, k: Seq<char>, v: JsonSpec, pos: int)
    requires
        0 <= pos <= es.len(),
        forall|j: int| 0 <= j < pos ==> (#[trigger] es[j]).0 != k,
        pos < es.len() ==> es[pos].0 == k,
    ensures
        pos < es.len() ==> upsert(es, k, v) == es.update(pos, (k, v)),
        pos == es.len() ==> upsert(es, k, v) == es.push((k, v)),
    decreases pos,
{
    if pos == 0 {
        if es.len() == 0 {
            assert(upsert(es, k, v) =~= es.push((k, v)));
        } else {
            assert(upsert(es, k, v) =~= es.update(0, (k, v)));
        }
    } else {
        assert(es[0].0 != k);
        assert(forall|j: int| 0 <= j < pos - 1 ==> (#[trigger] es.skip(1)[j]).0 != k);
        lemma_upsert_at(es.skip(1), k, v, pos - 1);
        if pos < es.len() {
            assert(seq![es[0]] + es.skip(1).update(pos - 1, (k, v)) =~= es.update(pos, (k, v)));
        } else {
            assert(seq![es[0]] + es.skip(1).push((k, v)) =~= es.push((k, v)));
        }
    }
}

/// Inserts or replaces an entry by key.
fn upsert_entry(es: &mut Vec<(String, JsonValue)>, key: String, val: JsonValue)
    ensures
        epairs(final (es)@) == upsert(epairs(old(es)@), key@, jspec_of(val)),
{
    let ghost gs = epairs(old(es)@);
    let mut pos: usize = 0;
    while pos < es.len() && !es[pos].0.eq(&key)
        invariant
            0 <= pos <= es@.len(),
            es@ == old(es)@,
            gs == epairs(es@),
            forall|j: int| 0 <= j < pos ==> (#[trigger] gs[j]).0 != key@,
        decreases es@.len() - pos,
    {
        assert(gs[pos as int].0 == es@[pos as int].0@);
        pos = pos + 1;
    }
    proof {
        if pos < es@.len() {
            assert(gs[pos as int].0 == es@[pos as int].0@);
        }
        lemma_upsert_at(gs, key@, jspec_of(val), pos as int);
    }
    if pos < es.len() {
        let ghost pre = es@;
        es.remove(pos);
        es.insert(pos, (key, val));
        proof {
            assert(es@ =~= pre.update(pos as int, (key, val)));
            assert(epairs(es@) =~= gs.update(pos as int, (key@, jspec_of(val))));
        }
    } else {
        let ghost pre = es@;
        es.push((key, val));
        proof {
            assert(es@ =~= pre.push((key, val)));
            assert(epairs(es@) =~= gs.push((key@, jspec_of(val))));
        }
    }
}

/// Parses one user-database line.
fn parse_passwd_line(line: &Vec<char>) -> (r: Option<(String, JsonValue)>)
    ensures
        match r {
            Option::Some(kv) => passwd_entry_spec(line@) matches Option::Some(skv) && kv.0@
                == skv.0 && jspec_of(kv.1) == skv.1,
            Option::None => passwd_entry_spec(line@) is None,
        },
{
    let t = split_at_exec(line, ':');
    if t.len() < 7 {
        return Option::None;
    }
    let ghost ts = split_at(line@, ':');
    let key = string_of_chars(&t[0]);
    let mut es: Vec<(String, JsonValue)> = Vec::new();
    es.push(("uid".to_owned(), JsonValue::Str(string_of_chars(&t[2]))));
    es.push(("gid".to_owned(), JsonValue::Str(string_of_chars(&t[3]))));
    es.push(("comment".to_owned(), JsonValue::Str(string_of_chars(&t[4]))));
    es.push(("home".to_owned(), JsonValue::Str(string_of_chars(&t[5]))));
    es.push(("shell".to_owned(), JsonValue::Str(string_of_chars(&t[6]))));
    let v = JsonValue::Obj(es);
    proof {
        assert(forall|j: int| 0 <= j < ts.len() ==> #[trigger] views_of(t@)[j] == t@[j]@);
        let skv = passwd_entry_spec(line@);
        let lo = jspec_of(v)->Obj_0;
        assert forall|j: int| 0 <= j < 5 implies lo[j] == (skv->Some_0.1)->Obj_0[j] by {
            assert(lo[j] == (es@[j].0@, jspec_of(es@[j].1)));
        }
        assert(lo =~= (skv->Some_0.1)->Obj_0);
        assert(jspec_of(v) =~~= skv->Some_0.1);
    }
    Option::Some((key, v))
}

/// Parses one group-database line.
fn parse_group_line(line: &Vec<char>) -> (r: Option<(String, JsonValue)>)
    ensures
        match r {
            Option::Some(kv) => group_entry_spec(line@) matches Option::Some(skv) && kv.0@
                == skv.0 && jspec_of(kv.1) == skv.1,
            Option::None => group_entry_spec(line@) is None,
        },
{
    let t = split_at_exec(line, ':');
    if t.len() < 3 {
        return Option::None;
    }
    let ghost ts = split_at(line@, ':');
    proof {
        assert(forall|j: int| 0 <= j < ts.len() ==> #[trigger] views_of(t@)[j] == t@[j]@);
    }
    let key = string_of_chars(&t[0]);
    let mut members: Vec<JsonValue> = Vec::new();
    if t.len() >= 4 {
        let ms = split_at_exec(&t[3], ',');
        let ghost mss = split_at(ts[3], ',');
        proof {
            assert(forall|j: int| 0 <= j < mss.len() ==> #[trigger] views_of(ms@)[j] == ms@[j]@);
        }
        let mut i: usize = 0;
        while i < ms.len()
            invariant
                0 <= i <= ms@.len(),
                mss == split_at(ts[3], ','),
                views_of(ms@) == mss,
                members@.len() == i,
                forall|j: int|
                    0 <= j < i ==> jspec_of(#[trigger] members@[j]) == JsonSpec::Str(mss[j]),
            decreases ms@.len() - i,
        {
            members.push(JsonValue::Str(string_of_chars(&ms[i])));
            i = i + 1;
        }
    }
    let mut es: Vec<(String, JsonValue)> = Vec::new();
    es.push(("gid".to_owned(), JsonValue::Str(string_of_chars(&t[2]))));
    es.push(("group-list".to_owned(), JsonValue::Arr(members)));
    let v = JsonValue::Obj(es);
    proof {
        let skv = group_entry_spec(line@);
        let lo = jspec_of(v)->Obj_0;
        assert(jspec_of(es@[1].1)->Arr_0 =~= group_members_spec(ts));
        assert(jspec_of(es@[1].1) =~~= JsonSpec::Arr(group_members_spec(ts)));
        assert forall|j: int| 0 <= j < 2 implies lo[j] == (skv->Some_0.1)->Obj_0[j] by {
            assert(lo[j] == (es@[j].0@, jspec_of(es@[j].1)));
        }
        assert(lo =~= (skv->Some_0.1)->Obj_0);
        assert(jspec_of(v) =~~= skv->Some_0.1);
    }
    Option::Some((key, v))
}

/// Parses the user database: one object keyed by user name, built in line
/// order with a later duplicate replacing the earlier record.
pub fn parse_passwd_db(content: &str) -> (r: JsonValue)
    ensures
        jspec_of(r) == JsonSpec::Obj(
            db_spec(split_at(content@, '\n'), |l: Seq<char>| passwd_entry_spec(l)),
        ),
{
    let cs = chars_vec(content);
    let lines = split_at_exec(&cs, '\n');
    let ghost lns = split_at(content@, '\n');
    let ghost f = |l: Seq<char>| passwd_entry_spec(l);
    let mut es: Vec<(String, JsonValue)> = Vec::new();
    let mut k: usize = 0;
    proof {
        assert(lns.take(0) =~= Seq::<Seq<char>>::empty());
    }
    while k < lines.len()
        invariant
            0 <= k <= lines@.len(),
            views_of(lines@) == lns,
            f == (|l: Seq<char>| passwd_entry_spec(l)),
            epairs(es@) == db_spec(lns.take(k as int), f),
        decreases lines@.len() - k,
    {
        proof {
            assert(lns.take(k as int + 1).drop_last() =~= lns.take(k as int));
            assert(lns.take(k as int + 1).last() == lns[k as int]);
            assert(views_of(lines@)[k as int] == lines@[k as int]@);
        }
        match parse_passwd_line(&lines[k]) {
            Option::Some(kv) => {
                let (key, v) = kv;
                upsert_entry(&mut es, key, v);
            },
            Option::None => {},
        }
        k = k + 1;
    }
    proof {
        assert(lns.take(lns.len() as int) =~= lns);
    }
    let r = JsonValue::Obj(es);
    proof {
        let lo = jspec_of(r)->Obj_0;
        assert forall|j: int| 0 <= j < es@.len() implies lo[j] == epairs(es@)[j] by {
            assert(lo[j] == (es@[j].0@, jspec_of(es@[j].1)));
        }
        assert(lo =~= epairs(es@));
        assert(jspec_of(r) =~~= JsonSpec::Obj(db_spec(lns, f)));
    }
    r
}

/// Parses the group database: one object keyed by group name, built in
/// line order with a later duplicate replacing the earlier record.
pub fn parse_group_db(content: &str) -> (r: JsonValue)
    ensures
        jspec_of(r) == JsonSpec::Obj(
            db_spec(split_at(content@, '\n'), |l: Seq<char>| group_entry_spec(l)),
        ),
{
    let cs = chars_vec(content);
    let lines = split_at_exec(&cs, '\n');
    let ghost lns = split_at(content@, '\n');
    let ghost f = |l: Seq<char>| group_entry_spec(l);
    let mut es: Vec<(String, JsonValue)> = Vec::new();
    let mut k: usize = 0;
    proof {
        assert(lns.take(0) =~= Seq::<Seq<char>>::empty());
    }
    while k < lines.len()
        invariant
            0 <= k <= lines@.len(),
            views_of(lines@) == lns,
            f == (|l: Seq<char>| group_entry_spec(l)),
            epairs(es@) == db_spec(lns.take(k as int), f),
        decreases lines@.len() - k,
    {
        proof {
            assert(lns.take(k as int + 1).drop_last() =~= lns.take(k as int));
            assert(lns.take(k as int + 1).last() == lns[k as int]);
            assert(views_of(lines@)[k as int] == lines@[k as int]@);
        }
        match parse_group_line(&lines[k]) {
            Option::Some(kv) => {
                let (key, v) = kv;
                upsert_entry(&mut es, key, v);
            },
            Option::None => {},
        }
        k = k + 1;
    }
    proof {
        assert(lns.take(lns.len() as int) =~= lns);
    }
    let r = JsonValue::Obj(es);
    proof {
        let lo = jspec_of(r)->Obj_0;
        assert forall|j: int| 0 <= j < es@.len() implies lo[j] == epairs(es@)[j] by {
            assert(lo[j] == (es@[j].0@, jspec_of(es@[j].1)));
        }
        assert(lo =~= epairs(es@));
        assert(jspec_of(r) =~~= JsonSpec::Obj(db_spec(lns, f)));
    }
    r
}

/// The timezone fact: the environment variable wins; otherwise the
/// trimmed file text, when it has any content; otherwise the UTC default.
pub open spec fn timezone_choice(
    env_tz: Option<Seq<char>>,
    file_tz: Option<Seq<char>>,
) -> Seq<char> {
    match env_tz {
        Option::Some(t) => t,
        Option::None => match file_tz {
            Option::Some(f) => if trim_spec(f).len() > 0 {
                trim_spec(f)
            } else {
                "Etc/UTC"@
            },
            Option::None => "Etc/UTC"@,
        },
    }
}

/// Builds the timezone portion of the snapshot.
pub fn timezone_value(env_tz: Option<String>, file_tz: Option<String>) -> (r: JsonValue)
    ensures
        jspec_of(r) == JsonSpec::Obj(
            seq![
                (
                    "timezone"@,
                    JsonSpec::Str(timezone_choice(opt_chars(env_tz), opt_chars(file_tz))),
                ),
            ],
        ),
{
    let ghost choice = timezone_choice(opt_chars(env_tz), opt_chars(file_tz));
    let tz: String = match env_tz {
        Option::Some(t) => t,
        Option::None => {
            match file_tz {
                Option::Some(f) => {
                    let fc = chars_vec(f.as_str());
                    let trimmed = trim_chars(&fc);
                    if trimmed.len() > 0 {
                        string_of_chars(&trimmed)
                    } else {
                        "Etc/UTC".to_owned()
                    }
                },
                Option::None => "Etc/UTC".to_owned(),
            }
        },
    };
    let mut es: Vec<(String, JsonValue)> = Vec::new();
    es.push(("timezone".to_owned(), JsonValue::Str(tz)));
    let r = JsonValue::Obj(es);
    proof {
        let lo = jspec_of(r)->Obj_0;
        assert(lo[0] == (es@[0].0@, jspec_of(es@[0].1)));
        assert(lo =~= seq![("timezone"@, JsonSpec::Str(choice))]);
        assert(jspec_of(r) =~~= JsonSpec::Obj(seq![("timezone"@, JsonSpec::Str(choice))]));
    }
    r
}

} // verus!
