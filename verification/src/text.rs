//! Character-sequence utilities shared by the parsing and message-building
//! code: `&str` to `Vec<char>` conversion, whitespace trimming, and decimal
//! rendering.

use vstd::prelude::*;

verus! {

/// Relies on String::push: appends the given character to the end of the
/// string.
pub assume_specification[ String::push ](s: &mut String, c: char)
    ensures
        final (s)@ == old(s)@.push(c),
;

/// The characters of a string slice, as a vector.
pub fn chars_vec(s: &str) -> (r: Vec<char>)
    ensures
        r@ == s@,
{
    let n = s.unicode_len();
    let mut r: Vec<char> = Vec::new();
    let mut i: usize = 0;
    while i < n
        invariant
            0 <= i <= n,
            n == s@.len(),
            r@ =~= s@.subrange(0, i as int),
        decreases n - i,
    {
        r.push(s.get_char(i));
        proof {
            assert(r@ =~= s@.subrange(0, i + 1));
        }
        i = i + 1;
    }
    proof {
        assert(r@ =~= s@);
    }
    r
}

/// A string holding exactly the given characters.
pub fn string_of_chars(v: &Vec<char>) -> (r: String)
    ensures
        r@ == v@,
{
    let mut r = String::new();
    let mut i: usize = 0;
    while i < v.len()
        invariant
            0 <= i <= v@.len(),
            r@ =~= v@.subrange(0, i as int),
        decreases v@.len() - i,
    {
        r.push(v[i]);
        proof {
            assert(r@ =~= v@.subrange(0, i + 1));
        }
        i = i + 1;
    }
    proof {
        assert(r@ =~= v@);
    }
    r
}

/// The whitespace characters trimmed from response bodies: space, tab,
/// line feed, and carriage return.
pub open spec fn is_space(c: char) -> bool {
    c == ' ' || c == '\t' || c == '\n' || c == '\r'
}

/// The sequence without its leading whitespace.
pub open spec fn trim_front(s: Seq<char>) -> Seq<char>
    decreases s.len(),
{
    if s.len() > 0 && is_space(s[0]) {
        trim_front(s.skip(1))
    } else {
        s
    }
}

/// The sequence without its trailing whitespace.
pub open spec fn trim_back(s: Seq<char>) -> Seq<char>
    decreases s.len(),
{
    if s.len() > 0 && is_space(s.last()) {
        trim_back(s.drop_last())
    } else {
        s
    }
}

/// The sequence without leading or trailing whitespace.
pub open spec fn trim_spec(s: Seq<char>) -> Seq<char> {
    trim_back(trim_front(s))
}

proof fn lemma_trim_front_skip(s: Seq<char>, i: int)
    requires
        0 <= i <= s.len(),
        forall|j: int| 0 <= j < i ==> is_space(s[j]),
    ensures
        trim_front(s) == trim_front(s.skip(i)),
    decreases i,
{
    if i > 0 {
        assert(is_space(s[0]));
        assert(s.len() > 0);
        lemma_trim_front_skip(s.skip(1), i - 1);
        assert(s.skip(1).skip(i - 1) =~= s.skip(i));
    } else {
        assert(s.skip(0) =~= s);
    }
}

proof fn lemma_trim_back_take(s: Seq<char>, i: int)
    requires
        0 <= i <= s.len(),
        forall|j: int| i <= j < s.len() ==> is_space(s[j]),
    ensures
        trim_back(s) == trim_back(s.take(i)),
    decreases s.len() - i,
{
    if i < s.len() {
        assert(is_space(s.last()));
        lemma_trim_back_take(s.drop_last(), i);
        assert(s.drop_last().take(i) =~= s.take(i));
    } else {
        assert(s.take(i) =~= s);
    }
}

/// Whether the character counts as trimmable whitespace.
fn is_space_char(c: char) -> (r: bool)
    ensures
        r == is_space(c),
{
    c == ' ' || c == '\t' || c == '\n' || c == '\r'
}

/// Trims leading and trailing whitespace characters.
pub fn trim_chars(v: &Vec<char>) -> (r: Vec<char>)
    ensures
        r@ == trim_spec(v@),
{
    let n = v.len();
    let mut a: usize = 0;
    while a < n && is_space_char(v[a])
        invariant
            0 <= a <= n,
            n == v@.len(),
            forall|j: int| 0 <= j < a ==> is_space(v@[j]),
        decreases n - a,
    {
        a = a + 1;
    }
    proof {
        lemma_trim_front_skip(v@, a as int);
    }
    if a == n {
        proof {
            assert(v@.skip(a as int) =~= Seq::<char>::empty());
            assert(trim_spec(v@) =~= Seq::<char>::empty());
        }
        return Vec::new();
    }
    // a < n and v[a] is not whitespace, so trim_front(v@) == v@.skip(a)
    assert(!is_space(v@[a as int]));
    assert(trim_front(v@) == v@.skip(a as int));
    let mut b: usize = n;
    while b > a + 1 && is_space_char(v[b - 1])
        invariant
            a < b <= n,
            n == v@.len(),
            forall|j: int| b <= j < n ==> is_space(v@[j]),
        decreases b,
    {
        b = b - 1;
    }
    let ghost front = v@.skip(a as int);
    proof {
        lemma_trim_back_take(front, b - a);
        assert(forall|j: int|
            b - a <= j < front.len() ==> is_space(#[trigger] front[j]));
    }
    // b == a + 1 (a single-character remainder) or v[b - 1] is not whitespace
    let mut r: Vec<char> = Vec::new();
    let mut i: usize = a;
    while i < b
        invariant
            a <= i <= b <= n,
            n == v@.len(),
            r@ =~= v@.subrange(a as int, i as int),
        decreases b - i,
    {
        r.push(v[i]);
        proof {
            assert(r@ =~= v@.subrange(a as int, i + 1));
        }
        i = i + 1;
    }
    proof {
        assert(r@ =~= front.take(b - a));
        if b > a + 1 {
            assert(!is_space(v@[b - 1]));
            assert(front.take(b - a).len() > 0);
            assert(front.take(b - a).last() == v@[b - 1]);
            assert(trim_back(front.take(b - a)) =~= front.take(b - a));
        } else {
            assert(b == a + 1);
            assert(front.take(1).len() == 1);
            assert(front.take(1)[0] == v@[a as int]);
            assert(!is_space(front.take(1).last()));
            assert(trim_back(front.take(1)) =~= front.take(1));
        }
        assert(r@ =~= trim_spec(v@));
    }
    r
}

pub open spec fn digit_char(d: int) -> char {
    ((d + 48) as u8) as char
}

/// Decimal rendering of a nonnegative number, most significant digit first.
pub open spec fn dec_chars(n: int) -> Seq<char>
    decreases n,
{
    if n < 10 {
        seq![digit_char(n)]
    } else {
        dec_chars(n / 10).push(digit_char(n % 10))
    }
}

/// Renders a 16-bit number in decimal.
pub fn u16_dec_chars(n: u16) -> (r: Vec<char>)
    ensures
        r@ == dec_chars(n as int),
    decreases n,
{
    if n < 10 {
        let d = (48u8 + n as u8) as char;
        let mut r: Vec<char> = Vec::new();
        r.push(d);
        proof {
            assert(r@ =~= seq![digit_char(n as int)]);
        }
        r
    } else {
        let mut r = u16_dec_chars(n / 10);
        let d = (48u8 + (n % 10) as u8) as char;
        r.push(d);
        proof {
            assert(r@ =~= dec_chars(n as int / 10).push(digit_char(n as int % 10)));
        }
        r
    }
}

/// The piece views of a vector of character vectors.
pub open spec fn views_of(v: Seq<Vec<char>>) -> Seq<Seq<char>> {
    Seq::new(v.len(), |i: int| v[i]@)
}

/// The pieces of a character sequence split at every occurrence of `sep`:
/// one piece more than there are separators, empty pieces included.
pub open spec fn split_at(s: Seq<char>, sep: char) -> Seq<Seq<char>>
    decreases s.len(),
{
    if s.len() == 0 {
        seq![Seq::<char>::empty()]
    } else {
        let rest = split_at(s.skip(1), sep);
        if s[0] == sep {
            seq![Seq::<char>::empty()] + rest
        } else {
            seq![seq![s[0]] + rest[0]] + rest.skip(1)
        }
    }
}

pub proof fn lemma_split_at_len(s: Seq<char>, sep: char)
    ensures
        split_at(s, sep).len() >= 1,
    decreases s.len(),
{
    if s.len() != 0 {
        lemma_split_at_len(s.skip(1), sep);
    }
}

/// Splits the characters at every occurrence of `sep`.
pub fn split_at_exec(s: &Vec<char>, sep: char) -> (r: Vec<Vec<char>>)
    ensures
        views_of(r@) == split_at(s@, sep),
{
    let mut done: Vec<Vec<char>> = Vec::new();
    let mut cur: Vec<char> = Vec::new();
    let mut i: usize = 0;
    proof {
        assert(s@.skip(0) =~= s@);
        lemma_split_at_len(s@, sep);
    }
    while i < s.len()
        invariant
            0 <= i <= s@.len(),
            split_at(s@.skip(i as int), sep).len() >= 1,
            split_at(s@, sep) =~~= views_of(done@) + seq![cur@ + split_at(
                s@.skip(i as int),
                sep,
            )[0]] + split_at(s@.skip(i as int), sep).skip(1),
        decreases s@.len() - i,
    {
        let ghost sp = split_at(s@.skip(i as int), sep);
        let ghost spn = split_at(s@.skip(i as int + 1), sep);
        proof {
            assert(s@.skip(i as int).len() > 0);
            assert(s@.skip(i as int).skip(1) =~= s@.skip(i as int + 1));
            assert(s@.skip(i as int)[0] == s@[i as int]);
            lemma_split_at_len(s@.skip(i as int + 1), sep);
        }
        let c = s[i];
        if c == sep {
            proof {
                assert(sp =~~= seq![Seq::<char>::empty()] + spn);
                assert(sp[0] =~= Seq::<char>::empty());
                assert(sp.skip(1) =~~= spn);
            }
            let ghost pre_done = done@;
            let ghost pre_cur = cur@;
            done.push(cur);
            cur = Vec::new();
            proof {
                assert(views_of(done@) =~~= views_of(pre_done) + seq![pre_cur]);
                assert(pre_cur + sp[0] =~= pre_cur);
                assert(spn =~~= seq![spn[0]] + spn.skip(1));
                assert(split_at(s@, sep) =~~= views_of(done@) + seq![cur@ + spn[0]] + spn.skip(1));
            }
        } else {
            proof {
                assert(sp =~~= seq![seq![s@[i as int]] + spn[0]] + spn.skip(1));
                assert(sp[0] =~= seq![s@[i as int]] + spn[0]);
                assert(sp.skip(1) =~~= spn.skip(1));
            }
            let ghost pre_cur = cur@;
            cur.push(c);
            proof {
                assert(cur@ =~= pre_cur.push(c));
                assert(cur@ + spn[0] =~= pre_cur + sp[0]);
                assert(split_at(s@, sep) =~~= views_of(done@) + seq![cur@ + spn[0]] + spn.skip(1));
            }
        }
        i = i + 1;
    }
    proof {
        assert(s@.skip(i as int).len() == 0);
        assert(split_at(s@.skip(i as int), sep) =~~= seq![Seq::<char>::empty()]);
        assert(cur@ + split_at(s@.skip(i as int), sep)[0] =~= cur@);
        assert(split_at(s@.skip(i as int), sep).skip(1) =~~= Seq::<Seq<char>>::empty());
    }
    let ghost pre_done = done@;
    let ghost pre_cur = cur@;
    done.push(cur);
    proof {
        assert(views_of(done@) =~~= views_of(pre_done) + seq![pre_cur]);
        assert(views_of(done@) =~~= split_at(s@, sep));
    }
    done
}

} // verus!
