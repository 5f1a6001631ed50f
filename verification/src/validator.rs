//! Literal address validation: decides whether a character sequence is a
//! syntactically valid IPv4 or IPv6 address literal.

use vstd::prelude::*;
use crate::AddressFamily;
use crate::text::{chars_vec, lemma_split_at_len, split_at, split_at_exec, views_of};

verus! {

/// A valid literal of the requested family.
pub open spec fn is_valid_literal(s: Seq<char>, family: AddressFamily) -> bool {
    match family {
        AddressFamily::V4 => is_ipv4_chars(s),
        AddressFamily::V6 => is_ipv6_chars(s),
    }
}

/// Checks whether the characters form a valid literal of the family.
pub fn validate_chars(v: &Vec<char>, family: AddressFamily) -> (r: bool)
    ensures
        r == is_valid_literal(v@, family),
{
    match family {
        AddressFamily::V4 => validate_ipv4_chars(v),
        AddressFamily::V6 => validate_ipv6_chars(v),
    }
}

/// Checks whether the candidate string is a valid literal of the family.
/// Surrounding whitespace is not accepted: callers trim beforehand.
pub fn validate(candidate: &str, family: AddressFamily) -> (r: bool)
    ensures
        r == is_valid_literal(candidate@, family),
{
    let cs = chars_vec(candidate);
    validate_chars(&cs, family)
}

/// A decimal digit.
pub open spec fn is_dec_digit(c: char) -> bool {
    '0' as u32 <= c as u32 && c as u32 <= '9' as u32
}

pub open spec fn dec_digit_val(c: char) -> int {
    c as u32 - '0' as u32
}

pub open spec fn all_dec_digits(s: Seq<char>) -> bool {
    forall|i: int| 0 <= i < s.len() ==> is_dec_digit(#[trigger] s[i])
}

/// Numeric value of a decimal digit string.
pub open spec fn dec_value(s: Seq<char>) -> int
    decreases s.len(),
{
    if s.len() == 0 {
        0
    } else {
        dec_value(s.drop_last()) * 10 + dec_digit_val(s.last())
    }
}

/// One dotted-quad component: one to three decimal digits, value at most
/// 255, with no leading zero (a multi-digit component may not start with '0').
pub open spec fn is_octet(s: Seq<char>) -> bool {
    &&& 1 <= s.len() <= 3
    &&& all_dec_digits(s)
    &&& dec_value(s) <= 255
    &&& (s.len() > 1 ==> s[0] != '0')
}

/// A valid IPv4 literal: four octets separated by single dots.
pub open spec fn is_ipv4_chars(s: Seq<char>) -> bool {
    exists|i: int, j: int, k: int|
        {
            &&& 0 <= i < j < k < s.len()
            &&& s[i] == '.' && s[j] == '.' && s[k] == '.'
            &&& is_octet(s.subrange(0, i))
            &&& is_octet(s.subrange(i + 1, j))
            &&& is_octet(s.subrange(j + 1, k))
            &&& is_octet(s.subrange(k + 1, s.len() as int))
        }
}

/// Checks that `s[from..to]` is a valid dotted-quad octet.
fn check_octet(s: &Vec<char>, from: usize, to: usize) -> (r: bool)
    requires
        from <= to <= s@.len(),
    ensures
        r == is_octet(s@.subrange(from as int, to as int)),
{
    let ghost oct = s@.subrange(from as int, to as int);
    let len = to - from;
    if len < 1 || len > 3 {
        return false;
    }
    let mut i: usize = 0;
    let mut val: u32 = 0;
    while i < len
        invariant
            0 <= i <= len,
            len == to - from,
            from <= to <= s@.len(),
            oct == s@.subrange(from as int, to as int),
            1 <= len <= 3,
            all_dec_digits(oct.subrange(0, i as int)),
            val == dec_value(oct.subrange(0, i as int)),
            i == 0 ==> val == 0,
            i == 1 ==> val < 10,
            i == 2 ==> val < 100,
            i == 3 ==> val < 1000,
        decreases len - i,
    {
        let c = s[from + i];
        let u = c as u32;
        if u < '0' as u32 || u > '9' as u32 {
            assert(oct[i as int] == c);
            assert(!is_dec_digit(oct[i as int]));
            return false;
        }
        proof {
            assert(oct.subrange(0, i + 1).drop_last() =~= oct.subrange(0, i as int));
            assert(oct.subrange(0, i + 1).last() == oct[i as int]);
            assert(oct[i as int] == c);
        }
        val = val * 10 + (u - '0' as u32);
        i = i + 1;
    }
    proof {
        assert(oct.subrange(0, len as int) =~= oct);
    }
    if val > 255 {
        return false;
    }
    if len > 1 && s[from] == '0' {
        assert(oct[0] == '0');
        return false;
    }
    true
}

/// Checks whether the characters form a valid IPv4 literal
/// (four dot-separated octets).
pub fn validate_ipv4_chars(s: &Vec<char>) -> (r: bool)
    ensures
        r == is_ipv4_chars(s@),
{
    let mut dots: Vec<usize> = Vec::new();
    let mut i: usize = 0;
    while i < s.len()
        invariant
            0 <= i <= s@.len(),
            forall|d: int|
                0 <= d < dots@.len() ==> 0 <= #[trigger] dots@[d] < i && s@[dots@[d] as int]
                    == '.',
            forall|p: int| 0 <= p < i && s@[p] == '.' ==> dots@.contains(p as usize),
            forall|d1: int, d2: int| 0 <= d1 < d2 < dots@.len() ==> dots@[d1] < dots@[d2],
        decreases s@.len() - i,
    {
        if s[i] == '.' {
            let ghost pre = dots@;
            dots.push(i);
            proof {
                assert(dots@ =~= pre.push(i));
                assert forall|p: int| 0 <= p < i + 1 && s@[p] == '.' implies dots@.contains(
                    p as usize,
                ) by {
                    if p < i {
                        assert(pre.contains(p as usize));
                        let d = choose|d: int| 0 <= d < pre.len() && pre[d] == p as usize;
                        assert(dots@[d] == p as usize);
                    } else {
                        assert(dots@[pre.len() as int] == i);
                    }
                }
            }
        } else {
            proof {
                assert forall|p: int| 0 <= p < i + 1 && s@[p] == '.' implies dots@.contains(
                    p as usize,
                ) by {
                    assert(p != i);
                }
            }
        }
        i = i + 1;
    }
    if dots.len() != 3 {
        proof {
            if is_ipv4_chars(s@) {
                let (wi, wj, wk) = choose|wi: int, wj: int, wk: int|
                    {
                        &&& 0 <= wi < wj < wk < s@.len()
                        &&& s@[wi] == '.' && s@[wj] == '.' && s@[wk] == '.'
                        &&& is_octet(s@.subrange(0, wi))
                        &&& is_octet(s@.subrange(wi + 1, wj))
                        &&& is_octet(s@.subrange(wj + 1, wk))
                        &&& is_octet(s@.subrange(wk + 1, s@.len() as int))
                    };
                lemma_dots_exact(s@, wi, wj, wk);
                assert(dots@.contains(wi as usize));
                assert(dots@.contains(wj as usize));
                assert(dots@.contains(wk as usize));
                // three distinct members force length >= 3
                let di = choose|d: int| 0 <= d < dots@.len() && dots@[d] == wi as usize;
                let dj = choose|d: int| 0 <= d < dots@.len() && dots@[d] == wj as usize;
                let dk = choose|d: int| 0 <= d < dots@.len() && dots@[d] == wk as usize;
                assert(di != dj && dj != dk && di != dk);
                // every dot index is one of the witnesses
                assert(forall|d: int|
                    0 <= d < dots@.len() ==> dots@[d] == wi as usize || dots@[d] == wj as usize
                        || #[trigger] dots@[d] == wk as usize);
                assert(dots@.len() >= 3);
                assert(dots@.len() <= 3) by {
                    if dots@.len() > 3 {
                        assert(dots@[0] < dots@[1] < dots@[2] < dots@[3]);
                    }
                }
                assert(false);
            }
        }
        return false;
    }
    let p0 = dots[0];
    let p1 = dots[1];
    let p2 = dots[2];
    assert(p0 < p1 < p2 < s@.len());
    let r0 = check_octet(s, 0, p0);
    let r1 = check_octet(s, p0 + 1, p1);
    let r2 = check_octet(s, p1 + 1, p2);
    let r3 = check_octet(s, p2 + 1, s.len());
    let r = r0 && r1 && r2 && r3;
    proof {
        if r {
            assert(is_ipv4_chars(s@)) by {
                assert({
                    &&& 0 <= p0 < p1 < p2 < s@.len()
                    &&& s@[p0 as int] == '.' && s@[p1 as int] == '.' && s@[p2 as int] == '.'
                    &&& is_octet(s@.subrange(0, p0 as int))
                    &&& is_octet(s@.subrange(p0 as int + 1, p1 as int))
                    &&& is_octet(s@.subrange(p1 as int + 1, p2 as int))
                    &&& is_octet(s@.subrange(p2 as int + 1, s@.len() as int))
                });
            }
        } else {
            if is_ipv4_chars(s@) {
                let (wi, wj, wk) = choose|wi: int, wj: int, wk: int|
                    {
                        &&& 0 <= wi < wj < wk < s@.len()
                        &&& s@[wi] == '.' && s@[wj] == '.' && s@[wk] == '.'
                        &&& is_octet(s@.subrange(0, wi))
                        &&& is_octet(s@.subrange(wi + 1, wj))
                        &&& is_octet(s@.subrange(wj + 1, wk))
                        &&& is_octet(s@.subrange(wk + 1, s@.len() as int))
                    };
                lemma_dots_exact(s@, wi, wj, wk);
                // the three recorded dots are exactly the witnesses, in order
                assert(forall|d: int|
                    0 <= d < dots@.len() ==> dots@[d] == wi as usize || dots@[d] == wj as usize
                        || #[trigger] dots@[d] == wk as usize);
                assert(dots@.contains(wi as usize));
                assert(dots@.contains(wj as usize));
                assert(dots@.contains(wk as usize));
                assert(p0 == wi && p1 == wj && p2 == wk) by {
                    assert(dots@[0] == p0 && dots@[1] == p1 && dots@[2] == p2);
                    assert(p0 < p1 < p2);
                }
                assert(false);
            }
        }
    }
    r
}

/// A hexadecimal digit.
pub open spec fn is_hex_digit(c: char) -> bool {
    ||| is_dec_digit(c)
    ||| 'a' as u32 <= c as u32 && c as u32 <= 'f' as u32
    ||| 'A' as u32 <= c as u32 && c as u32 <= 'F' as u32
}

/// One 16-bit group of an IPv6 literal: one to four hex digits.
pub open spec fn is_hex_group(s: Seq<char>) -> bool {
    &&& 1 <= s.len() <= 4
    &&& forall|i: int| 0 <= i < s.len() ==> is_hex_digit(#[trigger] s[i])
}

pub open spec fn all_hex_groups(ps: Seq<Seq<char>>, a: int, b: int) -> bool {
    forall|i: int| a <= i < b ==> is_hex_group(#[trigger] ps[i])
}

pub open spec fn no_empty_piece(ps: Seq<Seq<char>>, a: int, b: int) -> bool {
    forall|i: int| a <= i < b ==> (#[trigger] ps[i]).len() > 0
}

/// The pieces `ps[a .. ps.len())` form the trailing groups of an address:
/// hex groups, except that the final piece may instead be an embedded IPv4
/// dotted quad.
pub open spec fn tail_groups(ps: Seq<Seq<char>>, a: int) -> bool {
    let n = ps.len() as int;
    &&& a < n
    &&& all_hex_groups(ps, a, n - 1)
    &&& (is_hex_group(ps[n - 1]) || is_ipv4_chars(ps[n - 1]))
}

/// How many 16-bit groups the pieces `ps[a..)` stand for: an embedded IPv4
/// quad in the final piece counts for two.
pub open spec fn tail_units(ps: Seq<Seq<char>>, a: int) -> int {
    let n = ps.len() as int;
    (n - a) + if is_ipv4_chars(ps[n - 1]) {
        1int
    } else {
        0int
    }
}

/// A valid IPv6 literal, judged from its colon-separated pieces: either
/// eight hex groups (six, when the last piece is an embedded IPv4 quad),
/// or a form compressed by one "::", which stands for at least one zero
/// group, so at most seven explicit groups remain. A "::" at the start,
/// at the end, or alone shows up as two (or, alone, three) empty pieces.
pub open spec fn is_ipv6_pieces(ps: Seq<Seq<char>>) -> bool {
    let n = ps.len() as int;
    ||| (n == 8 && all_hex_groups(ps, 0, 8))
    ||| (n == 7 && all_hex_groups(ps, 0, 6) && is_ipv4_chars(ps[6]) && no_empty_piece(ps, 0, 7))
    ||| (n == 3 && ps[0].len() == 0 && ps[1].len() == 0 && ps[2].len() == 0)
    ||| (n >= 3 && ps[0].len() == 0 && ps[1].len() == 0 && no_empty_piece(ps, 2, n)
        && tail_groups(ps, 2) && tail_units(ps, 2) <= 7)
    ||| (n >= 3 && ps[n - 1].len() == 0 && ps[n - 2].len() == 0 && no_empty_piece(ps, 0, n - 2)
        && all_hex_groups(ps, 0, n - 2) && n - 2 <= 7)
    ||| (exists|m: int|
        {
            &&& 1 <= m < n - 1
            &&& ps[m].len() == 0
            &&& no_empty_piece(ps, 0, m)
            &&& no_empty_piece(ps, m + 1, n)
            &&& all_hex_groups(ps, 0, m)
            &&& tail_groups(ps, m + 1)
            &&& m + tail_units(ps, m + 1) <= 7
        })
}

/// A valid IPv6 literal, judged from the colon-separated pieces.
pub open spec fn is_ipv6_chars(s: Seq<char>) -> bool {
    is_ipv6_pieces(split_at(s, ':'))
}

/// Checks that the piece is a 16-bit hex group.
fn check_hex_group(p: &Vec<char>) -> (r: bool)
    ensures
        r == is_hex_group(p@),
{
    let len = p.len();
    if len < 1 || len > 4 {
        return false;
    }
    let mut i: usize = 0;
    while i < len
        invariant
            0 <= i <= len,
            len == p@.len(),
            1 <= len <= 4,
            forall|j: int| 0 <= j < i ==> is_hex_digit(#[trigger] p@[j]),
        decreases len - i,
    {
        let u = p[i] as u32;
        let ok = ('0' as u32 <= u && u <= '9' as u32) || ('a' as u32 <= u && u <= 'f' as u32) || (
        'A' as u32 <= u && u <= 'F' as u32);
        if !ok {
            assert(!is_hex_digit(p@[i as int]));
            return false;
        }
        i = i + 1;
    }
    true
}

/// Checks that no piece in `ps[a..b)` is empty.
fn check_no_empty(ps: &Vec<Vec<char>>, a: usize, b: usize) -> (r: bool)
    requires
        a <= b <= ps@.len(),
    ensures
        r == no_empty_piece(views_of(ps@), a as int, b as int),
{
    let mut i: usize = a;
    while i < b
        invariant
            a <= i <= b <= ps@.len(),
            forall|j: int| a <= j < i ==> (#[trigger] views_of(ps@)[j]).len() > 0,
        decreases b - i,
    {
        if ps[i].len() == 0 {
            assert(views_of(ps@)[i as int].len() == 0);
            return false;
        }
        i = i + 1;
    }
    true
}

/// Checks that every piece in `ps[a..b)` is a hex group.
fn check_all_hex(ps: &Vec<Vec<char>>, a: usize, b: usize) -> (r: bool)
    requires
        a <= b <= ps@.len(),
    ensures
        r == all_hex_groups(views_of(ps@), a as int, b as int),
{
    let mut i: usize = a;
    while i < b
        invariant
            a <= i <= b <= ps@.len(),
            forall|j: int| a <= j < i ==> is_hex_group(#[trigger] views_of(ps@)[j]),
        decreases b - i,
    {
        if !check_hex_group(&ps[i]) {
            assert(!is_hex_group(views_of(ps@)[i as int]));
            return false;
        }
        i = i + 1;
    }
    true
}

/// Checks the trailing groups starting at piece `a`: hex groups, the last
/// piece alternatively an embedded IPv4 quad.
fn check_tail_groups(ps: &Vec<Vec<char>>, a: usize) -> (r: bool)
    requires
        a < ps@.len(),
    ensures
        r == tail_groups(views_of(ps@), a as int),
{
    let n = ps.len();
    let hexes = check_all_hex(ps, a, n - 1);
    let last_hex = check_hex_group(&ps[n - 1]);
    let last_v4 = validate_ipv4_chars(&ps[n - 1]);
    hexes && (last_hex || last_v4)
}

/// Counts the 16-bit groups the trailing pieces stand for.
fn count_tail_units(ps: &Vec<Vec<char>>, a: usize) -> (r: usize)
    requires
        1 <= a < ps@.len(),
    ensures
        r == tail_units(views_of(ps@), a as int),
{
    let n = ps.len();
    let last_v4 = validate_ipv4_chars(&ps[n - 1]);
    if last_v4 {
        (n - a) + 1
    } else {
        n - a
    }
}

/// Finds the first empty piece, if any.
fn first_empty(ps: &Vec<Vec<char>>) -> (r: Option<usize>)
    ensures
        match r {
            Option::None => no_empty_piece(views_of(ps@), 0, ps@.len() as int),
            Option::Some(m) => m < ps@.len() && views_of(ps@)[m as int].len() == 0
                && no_empty_piece(views_of(ps@), 0, m as int),
        },
{
    let mut i: usize = 0;
    while i < ps.len()
        invariant
            0 <= i <= ps@.len(),
            forall|j: int| 0 <= j < i ==> (#[trigger] views_of(ps@)[j]).len() > 0,
        decreases ps@.len() - i,
    {
        if ps[i].len() == 0 {
            assert(views_of(ps@)[i as int].len() == 0);
            return Option::Some(i);
        }
        i = i + 1;
    }
    Option::None
}

/// Checks whether the characters form a valid IPv6 literal.
pub fn validate_ipv6_chars(s: &Vec<char>) -> (r: bool)
    ensures
        r == is_ipv6_chars(s@),
{
    let pieces = split_at_exec(s, ':');
    let ghost ps = views_of(pieces@);
    let n = pieces.len();
    proof {
        lemma_split_at_len(s@, ':');
        assert(n >= 1);
    }
    let fe = first_empty(&pieces);
    match fe {
        Option::None => {
            if n == 8 {
                let r = check_all_hex(&pieces, 0, 8);
                proof {
                    if !r {
                        assert(!is_ipv6_pieces(ps)) by {
                            lemma_no_empty_kills_compressed(ps);
                        }
                    }
                }
                r
            } else if n == 7 {
                let hexes = check_all_hex(&pieces, 0, 6);
                let v4 = validate_ipv4_chars(&pieces[6]);
                let r = hexes && v4;
                proof {
                    if !r {
                        assert(!is_ipv6_pieces(ps)) by {
                            lemma_no_empty_kills_compressed(ps);
                        }
                    }
                }
                r
            } else {
                proof {
                    assert(!is_ipv6_pieces(ps)) by {
                        lemma_no_empty_kills_compressed(ps);
                    }
                }
                false
            }
        },
        Option::Some(m) => {
            if m == 0 {
                if n >= 3 && pieces[1].len() == 0 {
                    if n == 3 && pieces[2].len() == 0 {
                        assert(is_ipv6_pieces(ps));
                        true
                    } else if check_no_empty(&pieces, 2, n) {
                        let tg = check_tail_groups(&pieces, 2);
                        let tu = count_tail_units(&pieces, 2);
                        let r = tg && tu <= 7;
                        proof {
                            if r {
                                assert(is_ipv6_pieces(ps));
                            } else {
                                assert(!is_ipv6_pieces(ps)) by {
                                    assert(ps[2].len() > 0);
                                    assert(ps[n - 1].len() > 0);
                                    lemma_empty_head_kills(ps);
                                }
                            }
                        }
                        r
                    } else {
                        proof {
                            assert(!is_ipv6_pieces(ps)) by {
                                lemma_empty_head_kills(ps);
                                // the exact "::" form was ruled out just above
                                assert(!(n == 3 && ps[2].len() == 0));
                            }
                        }
                        false
                    }
                } else {
                    proof {
                        assert(!is_ipv6_pieces(ps)) by {
                            lemma_empty_head_kills(ps);
                        }
                    }
                    false
                }
            } else {
                // first empty piece at m >= 1: every piece before is nonempty
                if m + 1 == n {
                    proof {
                        assert(!is_ipv6_pieces(ps)) by {
                            lemma_first_empty_late(ps, m as int);
                        }
                    }
                    false
                } else if m + 2 == n && pieces[n - 1].len() == 0 {
                    let hexes = check_all_hex(&pieces, 0, n - 2);
                    let r = hexes && n - 2 <= 7;
                    proof {
                        if r {
                            assert(is_ipv6_pieces(ps));
                        } else {
                            assert(!is_ipv6_pieces(ps)) by {
                                lemma_first_empty_late(ps, m as int);
                            }
                        }
                    }
                    r
                } else {
                    // middle candidate: pieces after m must all be nonempty
                    let tail_ok = check_no_empty(&pieces, m + 1, n);
                    if tail_ok {
                        let hexes = check_all_hex(&pieces, 0, m);
                        let tg = check_tail_groups(&pieces, m + 1);
                        let tu = count_tail_units(&pieces, m + 1);
                        let r = hexes && tg && m + tu <= 7;
                        proof {
                            if r {
                                assert(is_ipv6_pieces(ps)) by {
                                    assert({
                                        &&& 1 <= m < ps.len() - 1
                                        &&& ps[m as int].len() == 0
                                        &&& no_empty_piece(ps, 0, m as int)
                                        &&& no_empty_piece(ps, m + 1, ps.len() as int)
                                        &&& all_hex_groups(ps, 0, m as int)
                                        &&& tail_groups(ps, m + 1)
                                        &&& m + tail_units(ps, m + 1) <= 7
                                    });
                                }
                            } else {
                                assert(!is_ipv6_pieces(ps)) by {
                                    lemma_first_empty_late(ps, m as int);
                                }
                            }
                        }
                        r
                    } else {
                        proof {
                            assert(!is_ipv6_pieces(ps)) by {
                                lemma_first_empty_late(ps, m as int);
                            }
                        }
                        false
                    }
                }
            }
        },
    }
}

/// With the first piece empty, only the "::"-at-the-start forms (or "::"
/// alone) can be valid.
proof fn lemma_empty_head_kills(ps: Seq<Seq<char>>)
    requires
        ps.len() >= 1,
        ps[0].len() == 0,
    ensures
        ps.len() == 8 ==> !all_hex_groups(ps, 0, 8),
        !(ps.len() == 7 && no_empty_piece(ps, 0, 7)),
        !(ps.len() >= 3 && ps[ps.len() - 1].len() == 0 && ps[ps.len() - 2].len() == 0
            && no_empty_piece(ps, 0, ps.len() - 2)),
        forall|m: int| 1 <= m < ps.len() - 1 ==> !no_empty_piece(ps, 0, m),
{
    let n = ps.len() as int;
    if n == 8 && all_hex_groups(ps, 0, 8) {
        assert(is_hex_group(ps[0]));
    }
    if n == 7 && no_empty_piece(ps, 0, 7) {
        assert(ps[0].len() > 0);
    }
    if n >= 3 && no_empty_piece(ps, 0, n - 2) {
        assert(ps[0].len() > 0);
    }
    assert forall|m: int| 1 <= m < n - 1 implies !no_empty_piece(ps, 0, m) by {
        if no_empty_piece(ps, 0, m) {
            assert(ps[0].len() > 0);
        }
    }
}

/// With the first empty piece at `m >= 1`, the leading-"::" forms are out,
/// and a middle-compression witness can only be `m` itself.
proof fn lemma_first_empty_late(ps: Seq<Seq<char>>, m: int)
    requires
        1 <= m < ps.len(),
        ps[m].len() == 0,
        no_empty_piece(ps, 0, m),
    ensures
        ps.len() == 8 ==> !all_hex_groups(ps, 0, 8),
        !(ps.len() == 7 && no_empty_piece(ps, 0, 7)),
        !(ps.len() == 3 && ps[0].len() == 0),
        !(ps.len() >= 3 && ps[0].len() == 0),
        ps.len() >= 3 && ps[ps.len() - 2].len() == 0 && no_empty_piece(ps, 0, ps.len() - 2)
            ==> m == ps.len() - 2,
        forall|w: int|
            1 <= w < ps.len() - 1 && #[trigger] ps[w].len() == 0 && no_empty_piece(ps, 0, w)
                && no_empty_piece(ps, w + 1, ps.len() as int) ==> w == m && ps[ps.len()
            - 1].len() > 0,
{
    let n = ps.len() as int;
    if n == 8 && all_hex_groups(ps, 0, 8) {
        assert(is_hex_group(ps[m]));
    }
    if n == 7 && no_empty_piece(ps, 0, 7) {
        assert(ps[m].len() > 0);
    }
    assert(ps[0].len() > 0);
    if n >= 3 && ps[n - 2].len() == 0 && no_empty_piece(ps, 0, n - 2) {
        if m < n - 2 {
            assert(ps[m].len() > 0);
        }
        if m > n - 2 {
            assert(m == n - 1);
            assert(ps[n - 2].len() > 0);
        }
    }
    assert forall|w: int|
        1 <= w < n - 1 && #[trigger] ps[w].len() == 0 && no_empty_piece(ps, 0, w)
            && no_empty_piece(ps, w + 1, n) implies w == m && ps[n - 1].len() > 0 by {
        if w < m {
            assert(ps[w].len() > 0);
        }
        if m < w {
            assert(ps[m].len() > 0);
        }
        assert(w == m);
        assert(ps[n - 1].len() > 0);
    }
}

/// With no empty piece, every "::"-compressed form is out.
proof fn lemma_no_empty_kills_compressed(ps: Seq<Seq<char>>)
    requires
        no_empty_piece(ps, 0, ps.len() as int),
        ps.len() >= 1,
    ensures
        !(ps.len() == 3 && ps[0].len() == 0),
        !(ps.len() >= 3 && ps[0].len() == 0),
        !(ps.len() >= 3 && ps[ps.len() - 1].len() == 0),
        forall|m: int| 1 <= m < ps.len() - 1 ==> #[trigger] ps[m].len() != 0,
{
    let n = ps.len() as int;
    if n >= 3 {
        assert(ps[0].len() > 0);
        assert(ps[n - 1].len() > 0);
    }
    assert forall|m: int| 1 <= m < n - 1 implies #[trigger] ps[m].len() != 0 by {
        assert(ps[m].len() > 0);
    }
}

/// In a valid dotted quad with dot witnesses `i < j < k`, every dot of the
/// string stands at one of the witness positions: the four octet segments
/// hold decimal digits only.
proof fn lemma_dots_exact(s: Seq<char>, i: int, j: int, k: int)
    requires
        0 <= i < j < k < s.len(),
        s[i] == '.' && s[j] == '.' && s[k] == '.',
        is_octet(s.subrange(0, i)),
        is_octet(s.subrange(i + 1, j)),
        is_octet(s.subrange(j + 1, k)),
        is_octet(s.subrange(k + 1, s.len() as int)),
    ensures
        forall|p: int| 0 <= p < s.len() && #[trigger] s[p] == '.' ==> p == i || p == j || p == k,
{
    assert forall|p: int| 0 <= p < s.len() && #[trigger] s[p] == '.' implies p == i || p == j || p
        == k by {
        if p < i {
            assert(s.subrange(0, i)[p] == s[p]);
            assert(is_dec_digit(s.subrange(0, i)[p]));
        } else if i < p < j {
            assert(s.subrange(i + 1, j)[p - (i + 1)] == s[p]);
            assert(is_dec_digit(s.subrange(i + 1, j)[p - (i + 1)]));
        } else if j < p < k {
            assert(s.subrange(j + 1, k)[p - (j + 1)] == s[p]);
            assert(is_dec_digit(s.subrange(j + 1, k)[p - (j + 1)]));
        } else if k < p {
            assert(s.subrange(k + 1, s.len() as int)[p - (k + 1)] == s[p]);
            assert(is_dec_digit(s.subrange(k + 1, s.len() as int)[p - (k + 1)]));
        }
    }
}

} // verus!
