//! The IPv6 capability probe: scans the kernel's line-oriented
//! interface-address table for a record whose scope field names global
//! scope. No network traffic is involved; an unreadable table is reported
//! as a diagnostic, never as a run failure.

use vstd::prelude::*;
use crate::text::{chars_vec, split_at, split_at_exec, views_of};

verus! {

/// The field separators of the interface-address table.
pub open spec fn is_field_sep(c: char) -> bool {
    c == ' ' || c == '\t'
}

/// A line cut at every single separator character, empty pieces included.
pub open spec fn split_spaces(s: Seq<char>) -> Seq<Seq<char>>
    decreases s.len(),
{
    if s.len() == 0 {
        seq![Seq::<char>::empty()]
    } else {
        let rest = split_spaces(s.skip(1));
        if is_field_sep(s[0]) {
            seq![Seq::<char>::empty()] + rest
        } else {
            seq![seq![s[0]] + rest[0]] + rest.skip(1)
        }
    }
}

pub proof fn lemma_split_spaces_len(s: Seq<char>)
    ensures
        split_spaces(s).len() >= 1,
    decreases s.len(),
{
    if s.len() != 0 {
        lemma_split_spaces_len(s.skip(1));
    }
}

/// The nonempty pieces, in order.
pub open spec fn nonempty_of(ps: Seq<Seq<char>>) -> Seq<Seq<char>>
    decreases ps.len(),
{
    if ps.len() == 0 {
        Seq::<Seq<char>>::empty()
    } else {
        let rest = nonempty_of(ps.drop_last());
        if ps.last().len() > 0 {
            rest.push(ps.last())
        } else {
            rest
        }
    }
}

/// The whitespace-separated fields of one table line.
pub open spec fn line_fields(line: Seq<char>) -> Seq<Seq<char>> {
    nonempty_of(split_spaces(line))
}

/// One interface-address record showing global scope: at least six fields,
/// with the scope field — the fourth — equal to the global-scope sentinel
/// "00". Shorter lines are skipped, not errors.
pub open spec fn line_signals_global(line: Seq<char>) -> bool {
    line_fields(line).len() >= 6 && line_fields(line)[3] == "00"@
}

/// Whether any record of the table makes IPv6 egress plausible.
pub open spec fn table_signals_ipv6(s: Seq<char>) -> bool {
    exists|i: int|
        0 <= i < split_at(s, '\n').len() && line_signals_global(#[trigger] split_at(s, '\n')[i])
}

/// Tokenizes one line into its whitespace-separated fields.
fn fields_exec(line: &Vec<char>) -> (r: Vec<Vec<char>>)
    ensures
        views_of(r@) == line_fields(line@),
{
    let mut fields: Vec<Vec<char>> = Vec::new();
    let mut cur: Vec<char> = Vec::new();
    let ghost mut gdone: Seq<Seq<char>> = Seq::<Seq<char>>::empty();
    let mut i: usize = 0;
    proof {
        assert(line@.skip(0) =~= line@);
        lemma_split_spaces_len(line@);
        assert(nonempty_of(gdone) =~= Seq::<Seq<char>>::empty());
        assert(views_of(fields@) =~= Seq::<Seq<char>>::empty());
    }
    while i < line.len()
        invariant
            0 <= i <= line@.len(),
            split_spaces(line@.skip(i as int)).len() >= 1,
            split_spaces(line@) =~~= gdone + seq![cur@ + split_spaces(line@.skip(i as int))[0]]
                + split_spaces(line@.skip(i as int)).skip(1),
            views_of(fields@) =~~= nonempty_of(gdone),
        decreases line@.len() - i,
    {
        let ghost sp = split_spaces(line@.skip(i as int));
        let ghost spn = split_spaces(line@.skip(i as int + 1));
        proof {
            assert(line@.skip(i as int).len() > 0);
            assert(line@.skip(i as int).skip(1) =~= line@.skip(i as int + 1));
            assert(line@.skip(i as int)[0] == line@[i as int]);
            lemma_split_spaces_len(line@.skip(i as int + 1));
        }
        let c = line[i];
        if c == ' ' || c == '\t' {
            proof {
                assert(sp =~~= seq![Seq::<char>::empty()] + spn);
                assert(sp[0] =~= Seq::<char>::empty());
                assert(sp.skip(1) =~~= spn);
            }
            let ghost pre_done = gdone;
            let ghost pre_cur = cur@;
            let ghost pre_fields = fields@;
            if cur.len() > 0 {
                fields.push(cur);
            }
            cur = Vec::new();
            proof {
                gdone = pre_done.push(pre_cur);
                assert(gdone.drop_last() =~= pre_done);
                assert(gdone.last() == pre_cur);
                if pre_cur.len() > 0 {
                    assert(views_of(fields@) =~~= views_of(pre_fields) + seq![pre_cur]);
                    assert(nonempty_of(gdone) =~~= nonempty_of(pre_done).push(pre_cur));
                } else {
                    assert(nonempty_of(gdone) =~~= nonempty_of(pre_done));
                }
                assert(views_of(fields@) =~~= nonempty_of(gdone));
                assert(pre_cur + sp[0] =~= pre_cur);
                assert(spn =~~= seq![spn[0]] + spn.skip(1));
                assert(split_spaces(line@) =~~= gdone + seq![cur@ + spn[0]] + spn.skip(1));
            }
        } else {
            proof {
                assert(sp =~~= seq![seq![line@[i as int]] + spn[0]] + spn.skip(1));
                assert(sp[0] =~= seq![line@[i as int]] + spn[0]);
                assert(sp.skip(1) =~~= spn.skip(1));
            }
            let ghost pre_cur = cur@;
            cur.push(c);
            proof {
                assert(cur@ =~= pre_cur.push(c));
                assert(cur@ + spn[0] =~= pre_cur + sp[0]);
                assert(split_spaces(line@) =~~= gdone + seq![cur@ + spn[0]] + spn.skip(1));
            }
        }
        i = i + 1;
    }
    proof {
        assert(line@.skip(i as int).len() == 0);
        assert(split_spaces(line@.skip(i as int)) =~~= seq![Seq::<char>::empty()]);
        assert(cur@ + split_spaces(line@.skip(i as int))[0] =~= cur@);
        assert(split_spaces(line@.skip(i as int)).skip(1) =~~= Seq::<Seq<char>>::empty());
        assert(split_spaces(line@) =~~= gdone.push(cur@));
    }
    let ghost pre_fields = fields@;
    let ghost pre_cur = cur@;
    if cur.len() > 0 {
        fields.push(cur);
    }
    proof {
        let whole = gdone.push(pre_cur);
        assert(whole.drop_last() =~= gdone);
        assert(whole.last() == pre_cur);
        if pre_cur.len() > 0 {
            assert(views_of(fields@) =~~= views_of(pre_fields) + seq![pre_cur]);
            assert(nonempty_of(whole) =~~= nonempty_of(gdone).push(pre_cur));
        } else {
            assert(nonempty_of(whole) =~~= nonempty_of(gdone));
        }
        assert(views_of(fields@) =~~= line_fields(line@));
    }
    fields
}

/// Decides whether one line is a global-scope interface-address record.
fn line_signals_exec(line: &Vec<char>) -> (r: bool)
    ensures
        r == line_signals_global(line@),
{
    let fields = fields_exec(line);
    proof {
        reveal_strlit("00");
    }
    if fields.len() < 6 {
        return false;
    }
    let scope = &fields[3];
    let ghost sv = views_of(fields@)[3];
    assert(scope@ == sv);
    if scope.len() == 2 && scope[0] == '0' && scope[1] == '0' {
        assert(sv =~= "00"@);
        true
    } else {
        assert(sv != "00"@) by {
            if sv == "00"@ {
                assert(sv.len() == 2 && sv[0] == '0' && sv[1] == '0');
            }
        }
        false
    }
}

/// Scans the interface-address table text for the first global-scope
/// record, looking no further once one is found.
pub fn probe_table(content: &str) -> (r: bool)
    ensures
        r == table_signals_ipv6(content@),
{
    let cs = chars_vec(content);
    let lines = split_at_exec(&cs, '\n');
    let mut i: usize = 0;
    while i < lines.len()
        invariant
            0 <= i <= lines@.len(),
            views_of(lines@) == split_at(content@, '\n'),
            forall|j: int|
                0 <= j < i ==> !line_signals_global(#[trigger] split_at(content@, '\n')[j]),
        decreases lines@.len() - i,
    {
        if line_signals_exec(&lines[i]) {
            assert(line_signals_global(split_at(content@, '\n')[i as int]));
            return true;
        }
        assert(views_of(lines@)[i as int] == lines@[i as int]@);
        i = i + 1;
    }
    false
}

/// Whether the host plausibly has IPv6 egress, decided once per run from
/// local configuration alone, with a diagnostic when the interface table
/// itself could not be read.
pub struct CapabilityState {
    pub present: bool,
    pub diagnostic: Option<String>,
}

/// The diagnostic recorded when the interface table cannot be read.
pub open spec fn probe_failure_msg(detail: Seq<char>) -> Seq<char> {
    "error reading interface table: "@ + detail
}

/// Builds the capability state from a successfully read table.
pub fn capability_from_table(content: &str) -> (r: CapabilityState)
    ensures
        r.present == table_signals_ipv6(content@),
        r.diagnostic is None,
{
    let present = probe_table(content);
    CapabilityState { present, diagnostic: Option::None }
}

/// Builds the capability state for an unreadable table: capability
/// defaults to absent and the read failure is surfaced as a diagnostic.
pub fn capability_read_failure(detail: &str) -> (r: CapabilityState)
    ensures
        !r.present,
        match r.diagnostic {
            Option::Some(m) => m@ == probe_failure_msg(detail@),
            Option::None => false,
        },
{
    let mut m = "error reading interface table: ".to_owned();
    m.append(detail);
    CapabilityState { present: false, diagnostic: Option::Some(m) }
}

} // verus!
