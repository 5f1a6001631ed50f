//! The output normalizer: a JSON value model, recursive key-sorting so
//! that structurally identical snapshots always serialize to byte-identical
//! text, and the deterministic serializer itself.

use vstd::prelude::*;
use vstd::multiset::Multiset;

verus! {

broadcast use vstd::std_specs::vec::group_vec_axioms;

/// A JSON value as the snapshot holds it: scalars, arrays, and objects
/// whose entries keep their insertion order until normalized.
pub enum JsonValue {
    Null,
    Bool(bool),
    Str(String),
    Arr(Vec<JsonValue>),
    Obj(Vec<(String, JsonValue)>),
}

/// The mathematical model of a JSON value.
#[verifier::ext_equal]
pub enum JsonSpec {
    Null,
    Bool(bool),
    Str(Seq<char>),
    Arr(Seq<JsonSpec>),
    Obj(Seq<(Seq<char>, JsonSpec)>),
}

/// The model of an executable JSON value.
pub open spec fn jspec_of(v: JsonValue) -> JsonSpec
    decreases v,
{
    match v {
        JsonValue::Null => JsonSpec::Null,
        JsonValue::Bool(b) => JsonSpec::Bool(b),
        JsonValue::Str(s) => JsonSpec::Str(s@),
        JsonValue::Arr(items) => JsonSpec::Arr(
            Seq::new(
                items@.len(),
                |i: int|
                    if 0 <= i < items@.len() {
                        jspec_of(items[i])
                    } else {
                        JsonSpec::Null
                    },
            ),
        ),
        JsonValue::Obj(es) => JsonSpec::Obj(
            Seq::new(
                es@.len(),
                |i: int|
                    if 0 <= i < es@.len() {
                        (es[i].0@, jspec_of(es[i].1))
                    } else {
                        (Seq::<char>::empty(), JsonSpec::Null)
                    },
            ),
        ),
    }
}

/// Lexicographic order on keys, by character value; with UTF-8 encoding
/// this coincides with byte order.
pub open spec fn key_le(a: Seq<char>, b: Seq<char>) -> bool
    decreases a.len(),
{
    if a.len() == 0 {
        true
    } else if b.len() == 0 {
        false
    } else if (a[0] as u32) < (b[0] as u32) {
        true
    } else if (a[0] as u32) > (b[0] as u32) {
        false
    } else {
        key_le(a.skip(1), b.skip(1))
    }
}

pub proof fn lemma_key_le_refl(a: Seq<char>)
    ensures
        key_le(a, a),
    decreases a.len(),
{
    if a.len() > 0 {
        lemma_key_le_refl(a.skip(1));
    }
}

pub proof fn lemma_key_le_connex(a: Seq<char>, b: Seq<char>)
    ensures
        key_le(a, b) || key_le(b, a),
    decreases a.len(),
{
    if a.len() > 0 && b.len() > 0 && a[0] as u32 == b[0] as u32 {
        lemma_key_le_connex(a.skip(1), b.skip(1));
    }
}

pub proof fn lemma_key_le_trans(a: Seq<char>, b: Seq<char>, c: Seq<char>)
    requires
        key_le(a, b),
        key_le(b, c),
    ensures
        key_le(a, c),
    decreases a.len(),
{
    if a.len() > 0 && b.len() > 0 && c.len() > 0 && a[0] as u32 == b[0] as u32 && b[0] as u32
        == c[0] as u32 {
        lemma_key_le_trans(a.skip(1), b.skip(1), c.skip(1));
    }
}

proof fn lemma_char_cast_inj(a: char, b: char)
    requires
        a as u32 == b as u32,
    ensures
        a == b,
{
}

pub proof fn lemma_key_le_antisym(a: Seq<char>, b: Seq<char>)
    requires
        key_le(a, b),
        key_le(b, a),
    ensures
        a == b,
    decreases a.len(),
{
    if a.len() == 0 {
        assert(b.len() == 0);
        assert(a =~= b);
    } else if a.len() > 0 && b.len() > 0 && a[0] as u32 == b[0] as u32 {
        lemma_key_le_antisym(a.skip(1), b.skip(1));
        lemma_char_cast_inj(a[0], b[0]);
        assert(a =~= seq![a[0]] + a.skip(1));
        assert(b =~= seq![b[0]] + b.skip(1));
    }
}

/// Object entries in nondecreasing key order.
pub open spec fn entries_sorted(es: Seq<(Seq<char>, JsonSpec)>) -> bool {
    forall|i: int, j: int| 0 <= i < j < es.len() ==> key_le(#[trigger] es[i].0, #[trigger] es[j].0)
}

/// Inserts an entry into a key-sorted run, after any entries whose key
/// compares no greater — a stable insertion.
pub open spec fn insert_sorted(e: (Seq<char>, JsonSpec), s: Seq<(Seq<char>, JsonSpec)>) -> Seq<
    (Seq<char>, JsonSpec),
>
    decreases s.len(),
{
    if s.len() == 0 {
        seq![e]
    } else if key_le(s[0].0, e.0) {
        seq![s[0]] + insert_sorted(e, s.skip(1))
    } else {
        seq![e] + s
    }
}

/// Stable insertion sort of object entries by key.
pub open spec fn sort_entries(s: Seq<(Seq<char>, JsonSpec)>) -> Seq<(Seq<char>, JsonSpec)>
    decreases s.len(),
{
    if s.len() == 0 {
        Seq::<(Seq<char>, JsonSpec)>::empty()
    } else {
        insert_sorted(s.last(), sort_entries(s.drop_last()))
    }
}

/// The normalized form: object entries re-keyed into lexicographic order
/// at every depth, array element order and every scalar left untouched.
pub open spec fn normalize_spec(v: JsonSpec) -> JsonSpec
    decreases v,
{
    match v {
        JsonSpec::Null => JsonSpec::Null,
        JsonSpec::Bool(b) => JsonSpec::Bool(b),
        JsonSpec::Str(s) => JsonSpec::Str(s),
        JsonSpec::Arr(items) => JsonSpec::Arr(norm_list(items)),
        JsonSpec::Obj(es) => JsonSpec::Obj(sort_entries(norm_entries(es))),
    }
}

/// Each array element normalized, order preserved.
pub open spec fn norm_list(items: Seq<JsonSpec>) -> Seq<JsonSpec>
    decreases items,
{
    Seq::new(
        items.len(),
        |i: int|
            if 0 <= i < items.len() {
                normalize_spec(items[i])
            } else {
                JsonSpec::Null
            },
    )
}

/// Each entry's value normalized, keys and entry order untouched.
pub open spec fn norm_entries(es: Seq<(Seq<char>, JsonSpec)>) -> Seq<(Seq<char>, JsonSpec)>
    decreases es,
{
    Seq::new(
        es.len(),
        |i: int|
            if 0 <= i < es.len() {
                (es[i].0, normalize_spec(es[i].1))
            } else {
                (Seq::<char>::empty(), JsonSpec::Null)
            },
    )
}

/// Compares two keys lexicographically.
fn key_le_exec(a: &String, b: &String) -> (r: bool)
    ensures
        r == key_le(a@, b@),
{
    let an = a.as_str().unicode_len();
    let bn = b.as_str().unicode_len();
    let mut i: usize = 0;
    proof {
        assert(a@.skip(0) =~= a@);
        assert(b@.skip(0) =~= b@);
    }
    while i < an && i < bn && a.as_str().get_char(i) == b.as_str().get_char(i)
        invariant
            0 <= i <= an,
            0 <= i <= bn,
            an == a@.len(),
            bn == b@.len(),
            forall|j: int| 0 <= j < i ==> a@[j] == b@[j],
            key_le(a@, b@) == key_le(a@.skip(i as int), b@.skip(i as int)),
        decreases an - i,
    {
        proof {
            assert(a@.skip(i as int)[0] == b@.skip(i as int)[0]);
            assert(a@.skip(i as int).skip(1) =~= a@.skip(i + 1));
            assert(b@.skip(i as int).skip(1) =~= b@.skip(i + 1));
        }
        i = i + 1;
    }
    if i == an {
        assert(a@.skip(i as int).len() == 0);
        true
    } else if i == bn {
        assert(b@.skip(i as int).len() == 0);
        assert(a@.skip(i as int).len() > 0);
        false
    } else {
        let ac = a.as_str().get_char(i);
        let bc = b.as_str().get_char(i);
        proof {
            assert(a@.skip(i as int)[0] == a@[i as int]);
            assert(b@.skip(i as int)[0] == b@[i as int]);
        }
        (ac as u32) < (bc as u32)
    }
}

/// The models of executable object entries.
pub open spec fn epairs(es: Seq<(String, JsonValue)>) -> Seq<(Seq<char>, JsonSpec)> {
    Seq::new(es.len(), |i: int| (es[i].0@, jspec_of(es[i].1)))
}

proof fn lemma_insert_sorted_at(e: (Seq<char>, JsonSpec), s: Seq<(Seq<char>, JsonSpec)>, pos: int)
    requires
        0 <= pos <= s.len(),
        forall|j: int| 0 <= j < pos ==> key_le(#[trigger] s[j].0, e.0),
        pos < s.len() ==> !key_le(s[pos].0, e.0),
    ensures
        insert_sorted(e, s) == s.take(pos) + seq![e] + s.skip(pos),
    decreases pos,
{
    if pos == 0 {
        if s.len() == 0 {
            assert(insert_sorted(e, s) =~= s.take(0) + seq![e] + s.skip(0));
        } else {
            assert(!key_le(s[0].0, e.0));
            assert(insert_sorted(e, s) =~= s.take(0) + seq![e] + s.skip(0));
        }
    } else {
        assert(key_le(s[0].0, e.0));
        assert(forall|j: int| 0 <= j < pos - 1 ==> key_le(#[trigger] s.skip(1)[j].0, e.0));
        assert(pos - 1 < s.skip(1).len() ==> !key_le(s.skip(1)[pos - 1].0, e.0));
        lemma_insert_sorted_at(e, s.skip(1), pos - 1);
        assert(insert_sorted(e, s) =~= s.take(pos) + seq![e] + s.skip(pos)) by {
            assert(s.skip(1).take(pos - 1) =~= s.take(pos).skip(1));
            assert(s.skip(1).skip(pos - 1) =~= s.skip(pos));
            assert(seq![s[0]] + (s.skip(1).take(pos - 1) + seq![e] + s.skip(1).skip(pos - 1))
                =~= s.take(pos) + seq![e] + s.skip(pos));
        }
    }
}

/// Inserts one entry into a key-sorted vector of entries.
fn insert_entry(mut v: Vec<(String, JsonValue)>, e: (String, JsonValue)) -> (r: Vec<
    (String, JsonValue),
>)
    ensures
        epairs(r@) == insert_sorted((e.0@, jspec_of(e.1)), epairs(v@)),
{
    let ghost gs = epairs(v@);
    let ghost ge = (e.0@, jspec_of(e.1));
    let mut pos: usize = 0;
    while pos < v.len() && key_le_exec(&v[pos].0, &e.0)
        invariant
            0 <= pos <= v@.len(),
            gs == epairs(v@),
            ge == (e.0@, jspec_of(e.1)),
            forall|j: int| 0 <= j < pos ==> key_le(#[trigger] gs[j].0, ge.0),
        decreases v@.len() - pos,
    {
        assert(gs[pos as int].0 == v@[pos as int].0@);
        pos = pos + 1;
    }
    proof {
        if pos < v@.len() {
            assert(gs[pos as int].0 == v@[pos as int].0@);
        }
        lemma_insert_sorted_at(ge, gs, pos as int);
    }
    let ghost pre = v@;
    v.insert(pos, e);
    proof {
        assert(epairs(v@) =~= gs.take(pos as int) + seq![ge] + gs.skip(pos as int)) by {
            assert(v@ =~= pre.take(pos as int) + seq![e] + pre.skip(pos as int)) by {
                assert(v@ == pre.insert(pos as int, e));
                assert(pre.insert(pos as int, e) =~= pre.take(pos as int) + seq![e] + pre.skip(
                    pos as int,
                ));
            }
        }
    }
    v
}

/// Normalizes a JSON value: sorts every object's keys recursively,
/// preserves array order, passes scalars through.
pub fn normalize(v: &JsonValue) -> (r: JsonValue)
    ensures
        jspec_of(r) == normalize_spec(jspec_of(*v)),
    decreases *v,
{
    match v {
        JsonValue::Null => JsonValue::Null,
        JsonValue::Bool(b) => JsonValue::Bool(*b),
        JsonValue::Str(s) => JsonValue::Str(s.clone()),
        JsonValue::Arr(items) => {
            let mut out: Vec<JsonValue> = Vec::new();
            let mut i: usize = 0;
            while i < items.len()
                invariant
                    0 <= i <= items@.len(),
                    out@.len() == i,
                    *v == JsonValue::Arr(*items),
                    forall|j: int|
                        0 <= j < i ==> jspec_of(#[trigger] out@[j]) == normalize_spec(
                            jspec_of(items@[j]),
                        ),
                decreases items@.len() - i,
            {
                proof {
                    assert(decreases_to!(*v => v->Arr_0));
                    assert(decreases_to!(v->Arr_0 => v->Arr_0@));
                    assert(decreases_to!(v->Arr_0@ => v->Arr_0@[i as int]));
                    assert(v->Arr_0@[i as int] == items@[i as int]);
                }
                let n = normalize(&items[i]);
                out.push(n);
                i = i + 1;
            }
            let r = JsonValue::Arr(out);
            proof {
                assert(*v == JsonValue::Arr(*items));
                let li = jspec_of(r)->Arr_0;
                let ri = normalize_spec(jspec_of(*v))->Arr_0;
                assert(jspec_of(*v)->Arr_0.len() == items@.len());
                assert forall|j: int| 0 <= j < out@.len() implies li[j] == ri[j] by {
                    assert(li[j] == jspec_of(out@[j]));
                    assert(jspec_of(*v)->Arr_0[j] == jspec_of(items@[j]));
                    assert(ri[j] == normalize_spec(jspec_of(items@[j])));
                }
                assert(li =~= ri);
                assert(jspec_of(r) =~~= normalize_spec(jspec_of(*v)));
            }
            r
        },
        JsonValue::Obj(es) => {
            let mut mapped: Vec<(String, JsonValue)> = Vec::new();
            let mut i: usize = 0;
            while i < es.len()
                invariant
                    0 <= i <= es@.len(),
                    mapped@.len() == i,
                    *v == JsonValue::Obj(*es),
                    forall|j: int|
                        0 <= j < i ==> (#[trigger] mapped@[j]).0@ == es@[j].0@ && jspec_of(
                            mapped@[j].1,
                        ) == normalize_spec(jspec_of(es@[j].1)),
                decreases es@.len() - i,
            {
                proof {
                    assert(decreases_to!(*v => v->Obj_0));
                    assert(decreases_to!(v->Obj_0 => v->Obj_0@));
                    assert(decreases_to!(v->Obj_0@ => v->Obj_0@[i as int]));
                    assert(decreases_to!(v->Obj_0@[i as int] => v->Obj_0@[i as int].1));
                    assert(v->Obj_0@[i as int].1 == es@[i as int].1);
                }
                let entry = &es[i];
                let nv = normalize(&entry.1);
                mapped.push((entry.0.clone(), nv));
                i = i + 1;
            }
            let ghost gmapped = epairs(mapped@);
            proof {
                assert(*v == JsonValue::Obj(*es));
                let espec = jspec_of(*v)->Obj_0;
                assert(espec.len() == es@.len());
                assert forall|j: int| 0 <= j < es@.len() implies gmapped[j] == norm_entries(
                    espec,
                )[j] by {
                    assert(gmapped[j] == (mapped@[j].0@, jspec_of(mapped@[j].1)));
                    assert(espec[j] == (es@[j].0@, jspec_of(es@[j].1)));
                    assert(norm_entries(espec)[j] == (espec[j].0, normalize_spec(espec[j].1)));
                }
                assert(gmapped =~= norm_entries(jspec_of(*v)->Obj_0));
            }
            let mut sorted: Vec<(String, JsonValue)> = Vec::new();
            let mut k: usize = 0;
            proof {
                assert(epairs(sorted@) =~= sort_entries(gmapped.take(0)));
            }
            while k < mapped.len()
                invariant
                    0 <= k <= mapped@.len(),
                    gmapped == epairs(mapped@),
                    epairs(sorted@) == sort_entries(gmapped.take(k as int)),
                decreases mapped@.len() - k,
            {
                let entry = &mapped[k];
                let key = entry.0.clone();
                let val = clone_value(&entry.1);
                proof {
                    assert(gmapped.take(k as int + 1).drop_last() =~= gmapped.take(k as int));
                    assert(gmapped.take(k as int + 1).last() == gmapped[k as int]);
                    assert(gmapped[k as int] == (mapped@[k as int].0@, jspec_of(
                        mapped@[k as int].1,
                    )));
                }
                sorted = insert_entry(sorted, (key, val));
                k = k + 1;
            }
            let r = JsonValue::Obj(sorted);
            proof {
                assert(gmapped.take(gmapped.len() as int) =~= gmapped);
                assert(epairs(sorted@) == sort_entries(gmapped));
                let lo = jspec_of(r)->Obj_0;
                assert forall|j: int| 0 <= j < sorted@.len() implies lo[j] == epairs(sorted@)[j] by {
                    assert(lo[j] == (sorted@[j].0@, jspec_of(sorted@[j].1)));
                }
                assert(lo =~= epairs(sorted@));
                assert(normalize_spec(jspec_of(*v))->Obj_0 == sort_entries(
                    norm_entries(jspec_of(*v)->Obj_0),
                ));
                assert(jspec_of(r) =~~= normalize_spec(jspec_of(*v)));
            }
            r
        },
    }
}

/// A structural copy: the copy has the same model as the original.
fn clone_value(v: &JsonValue) -> (r: JsonValue)
    ensures
        jspec_of(r) == jspec_of(*v),
    decreases *v,
{
    match v {
        JsonValue::Null => JsonValue::Null,
        JsonValue::Bool(b) => JsonValue::Bool(*b),
        JsonValue::Str(s) => JsonValue::Str(s.clone()),
        JsonValue::Arr(items) => {
            let mut out: Vec<JsonValue> = Vec::new();
            let mut i: usize = 0;
            while i < items.len()
                invariant
                    0 <= i <= items@.len(),
                    out@.len() == i,
                    *v == JsonValue::Arr(*items),
                    forall|j: int|
                        0 <= j < i ==> jspec_of(#[trigger] out@[j]) == jspec_of(items@[j]),
                decreases items@.len() - i,
            {
                proof {
                    assert(decreases_to!(*v => v->Arr_0));
                    assert(decreases_to!(v->Arr_0 => v->Arr_0@));
                    assert(decreases_to!(v->Arr_0@ => v->Arr_0@[i as int]));
                    assert(v->Arr_0@[i as int] == items@[i as int]);
                }
                let n = clone_value(&items[i]);
                out.push(n);
                i = i + 1;
            }
            let r = JsonValue::Arr(out);
            proof {
                assert(*v == JsonValue::Arr(*items));
                let li = jspec_of(r)->Arr_0;
                let ri = jspec_of(*v)->Arr_0;
                assert(ri.len() == items@.len());
                assert forall|j: int| 0 <= j < out@.len() implies li[j] == ri[j] by {
                    assert(li[j] == jspec_of(out@[j]));
                    assert(ri[j] == jspec_of(items@[j]));
                }
                assert(li =~= ri);
                assert(jspec_of(r) =~~= jspec_of(*v));
            }
            r
        },
        JsonValue::Obj(es) => {
            let mut out: Vec<(String, JsonValue)> = Vec::new();
            let mut i: usize = 0;
            while i < es.len()
                invariant
                    0 <= i <= es@.len(),
                    out@.len() == i,
                    *v == JsonValue::Obj(*es),
                    forall|j: int|
                        0 <= j < i ==> (#[trigger] out@[j]).0@ == es@[j].0@ && jspec_of(out@[j].1)
                            == jspec_of(es@[j].1),
                decreases es@.len() - i,
            {
                proof {
                    assert(decreases_to!(*v => v->Obj_0));
                    assert(decreases_to!(v->Obj_0 => v->Obj_0@));
                    assert(decreases_to!(v->Obj_0@ => v->Obj_0@[i as int]));
                    assert(decreases_to!(v->Obj_0@[i as int] => v->Obj_0@[i as int].1));
                    assert(v->Obj_0@[i as int].1 == es@[i as int].1);
                }
                let entry = &es[i];
                let nv = clone_value(&entry.1);
                out.push((entry.0.clone(), nv));
                i = i + 1;
            }
            let r = JsonValue::Obj(out);
            proof {
                assert(*v == JsonValue::Obj(*es));
                let lo = jspec_of(r)->Obj_0;
                let ro = jspec_of(*v)->Obj_0;
                assert(ro.len() == es@.len());
                assert forall|j: int| 0 <= j < out@.len() implies lo[j] == ro[j] by {
                    assert(lo[j] == (out@[j].0@, jspec_of(out@[j].1)));
                    assert(ro[j] == (es@[j].0@, jspec_of(es@[j].1)));
                }
                assert(lo =~= ro);
                assert(jspec_of(r) =~~= jspec_of(*v));
            }
            r
        },
    }
}

/// How one character is written inside a JSON string: quotes, backslashes,
/// and the common control characters are escaped; everything else passes
/// through unchanged.
pub open spec fn escape_char(c: char) -> Seq<char> {
    if c == '"' {
        seq!['\\', '"']
    } else if c == '\\' {
        seq!['\\', '\\']
    } else if c == '\n' {
        seq!['\\', 'n']
    } else if c == '\r' {
        seq!['\\', 'r']
    } else if c == '\t' {
        seq!['\\', 't']
    } else {
        seq![c]
    }
}

/// A string body with every character escaped.
pub open spec fn escape_chars(s: Seq<char>) -> Seq<char>
    decreases s.len(),
{
    if s.len() == 0 {
        Seq::<char>::empty()
    } else {
        escape_chars(s.drop_last()) + escape_char(s.last())
    }
}

/// A quoted, escaped JSON string.
pub open spec fn quoted(s: Seq<char>) -> Seq<char> {
    seq!['"'] + escape_chars(s) + seq!['"']
}

/// The serialized text of a JSON value: compact, no added whitespace,
/// object entries in the order they stand.
pub open spec fn ser(v: JsonSpec) -> Seq<char>
    decreases v, 0int,
{
    match v {
        JsonSpec::Null => "null"@,
        JsonSpec::Bool(b) => if b {
            "true"@
        } else {
            "false"@
        },
        JsonSpec::Str(s) => quoted(s),
        JsonSpec::Arr(items) => seq!['['] + ser_items_upto(items, items.len() as int) + seq![']'],
        JsonSpec::Obj(es) => seq!['{'] + ser_entries_upto(es, es.len() as int) + seq!['}'],
    }
}

/// The first `k` array elements serialized, comma-separated.
pub open spec fn ser_items_upto(items: Seq<JsonSpec>, k: int) -> Seq<char>
    decreases items, k,
{
    if k <= 0 || k > items.len() {
        Seq::<char>::empty()
    } else if k == 1 {
        ser(items[0])
    } else {
        ser_items_upto(items, k - 1) + seq![','] + ser(items[k - 1])
    }
}

/// The first `k` object entries serialized, comma-separated.
pub open spec fn ser_entries_upto(es: Seq<(Seq<char>, JsonSpec)>, k: int) -> Seq<char>
    decreases es, k,
{
    if k <= 0 || k > es.len() {
        Seq::<char>::empty()
    } else if k == 1 {
        quoted(es[0].0) + seq![':'] + ser(es[0].1)
    } else {
        ser_entries_upto(es, k - 1) + seq![','] + quoted(es[k - 1].0) + seq![':'] + ser(
            es[k - 1].1,
        )
    }
}

/// Appends the escaped body of a string.
fn escape_into(s: &str, out: &mut String)
    ensures
        final (out)@ == old(out)@ + escape_chars(s@),
{
    let ghost base = old(out)@;
    let n = s.unicode_len();
    let mut i: usize = 0;
    proof {
        assert(base + escape_chars(s@.take(0)) =~= base);
    }
    while i < n
        invariant
            0 <= i <= n,
            n == s@.len(),
            out@ == base + escape_chars(s@.take(i as int)),
        decreases n - i,
    {
        let c = s.get_char(i);
        if c == '"' {
            out.push('\\');
            out.push('"');
        } else if c == '\\' {
            out.push('\\');
            out.push('\\');
        } else if c == '\n' {
            out.push('\\');
            out.push('n');
        } else if c == '\r' {
            out.push('\\');
            out.push('r');
        } else if c == '\t' {
            out.push('\\');
            out.push('t');
        } else {
            out.push(c);
        }
        proof {
            assert(s@.take(i + 1).drop_last() =~= s@.take(i as int));
            assert(s@.take(i + 1).last() == s@[i as int]);
            assert(out@ =~= base + escape_chars(s@.take(i + 1)));
        }
        i = i + 1;
    }
    proof {
        assert(s@.take(n as int) =~= s@);
    }
}

/// Appends the serialized text of a value.
fn ser_into(v: &JsonValue, out: &mut String)
    ensures
        final (out)@ == old(out)@ + ser(jspec_of(*v)),
    decreases *v,
{
    match v {
        JsonValue::Null => {
            out.append("null");
        },
        JsonValue::Bool(b) => {
            if *b {
                out.append("true");
            } else {
                out.append("false");
            }
        },
        JsonValue::Str(s) => {
            let ghost base = old(out)@;
            out.push('"');
            escape_into(s.as_str(), out);
            out.push('"');
            proof {
                assert(out@ =~= base + quoted(s@));
            }
        },
        JsonValue::Arr(items) => {
            let ghost base = old(out)@;
            let ghost ispec = jspec_of(*v)->Arr_0;
            proof {
                assert(*v == JsonValue::Arr(*items));
                assert(ispec.len() == items@.len());
            }
            out.push('[');
            let mut i: usize = 0;
            proof {
                assert(out@ =~= base + seq!['['] + ser_items_upto(ispec, 0));
            }
            while i < items.len()
                invariant
                    0 <= i <= items@.len(),
                    *v == JsonValue::Arr(*items),
                    ispec == jspec_of(*v)->Arr_0,
                    ispec.len() == items@.len(),
                    out@ == base + seq!['['] + ser_items_upto(ispec, i as int),
                decreases items@.len() - i,
            {
                proof {
                    assert(decreases_to!(*v => v->Arr_0));
                    assert(decreases_to!(v->Arr_0 => v->Arr_0@));
                    assert(decreases_to!(v->Arr_0@ => v->Arr_0@[i as int]));
                    assert(v->Arr_0@[i as int] == items@[i as int]);
                }
                if i > 0 {
                    out.push(',');
                }
                ser_into(&items[i], out);
                proof {
                    assert(jspec_of(items@[i as int]) == ispec[i as int]);
                    if i == 0 {
                        assert(ser_items_upto(ispec, 1) == ser(ispec[0]));
                    }
                    assert(out@ =~= base + seq!['['] + ser_items_upto(ispec, i + 1));
                }
                i = i + 1;
            }
            out.push(']');
            proof {
                assert(out@ =~= base + ser(jspec_of(*v)));
            }
        },
        JsonValue::Obj(es) => {
            let ghost base = old(out)@;
            let ghost espec = jspec_of(*v)->Obj_0;
            proof {
                assert(*v == JsonValue::Obj(*es));
                assert(espec.len() == es@.len());
            }
            out.push('{');
            let mut i: usize = 0;
            proof {
                assert(out@ =~= base + seq!['{'] + ser_entries_upto(espec, 0));
            }
            while i < es.len()
                invariant
                    0 <= i <= es@.len(),
                    *v == JsonValue::Obj(*es),
                    espec == jspec_of(*v)->Obj_0,
                    espec.len() == es@.len(),
                    out@ == base + seq!['{'] + ser_entries_upto(espec, i as int),
                decreases es@.len() - i,
            {
                proof {
                    assert(decreases_to!(*v => v->Obj_0));
                    assert(decreases_to!(v->Obj_0 => v->Obj_0@));
                    assert(decreases_to!(v->Obj_0@ => v->Obj_0@[i as int]));
                    assert(decreases_to!(v->Obj_0@[i as int] => v->Obj_0@[i as int].1));
                    assert(v->Obj_0@[i as int].1 == es@[i as int].1);
                }
                if i > 0 {
                    out.push(',');
                }
                let entry = &es[i];
                let ghost mid = out@;
                out.push('"');
                escape_into(entry.0.as_str(), out);
                out.push('"');
                out.push(':');
                proof {
                    assert(out@ =~= mid + quoted(es@[i as int].0@) + seq![':']);
                }
                ser_into(&entry.1, out);
                proof {
                    assert(espec[i as int] == (es@[i as int].0@, jspec_of(es@[i as int].1)));
                    if i == 0 {
                        assert(ser_entries_upto(espec, 1) == quoted(espec[0].0) + seq![':'] + ser(
                            espec[0].1,
                        ));
                    }
                    assert(out@ =~= base + seq!['{'] + ser_entries_upto(espec, i + 1));
                }
                i = i + 1;
            }
            out.push('}');
            proof {
                assert(out@ =~= base + ser(jspec_of(*v)));
            }
        },
    }
}

/// The serialized text of a value: compact JSON on one line.
pub fn to_json_string(v: &JsonValue) -> (r: String)
    ensures
        r@ == ser(jspec_of(*v)),
{
    let mut out = String::new();
    ser_into(v, &mut out);
    proof {
        assert(Seq::<char>::empty() + ser(jspec_of(*v)) =~= ser(jspec_of(*v)));
    }
    out
}

/// Where an entry lands in a sorted run: after every entry whose key
/// compares no greater.
spec fn insert_pos(e: (Seq<char>, JsonSpec), s: Seq<(Seq<char>, JsonSpec)>) -> int
    decreases s.len(),
{
    if s.len() == 0 {
        0
    } else if key_le(s[0].0, e.0) {
        1 + insert_pos(e, s.skip(1))
    } else {
        0
    }
}

proof fn lemma_insert_pos_props(e: (Seq<char>, JsonSpec), s: Seq<(Seq<char>, JsonSpec)>)
    ensures
        0 <= insert_pos(e, s) <= s.len(),
        forall|j: int| 0 <= j < insert_pos(e, s) ==> key_le(#[trigger] s[j].0, e.0),
        insert_pos(e, s) < s.len() ==> !key_le(s[insert_pos(e, s)].0, e.0),
        insert_sorted(e, s) == s.take(insert_pos(e, s)) + seq![e] + s.skip(insert_pos(e, s)),
    decreases s.len(),
{
    if s.len() > 0 && key_le(s[0].0, e.0) {
        lemma_insert_pos_props(e, s.skip(1));
        assert(forall|j: int|
            0 <= j < insert_pos(e, s.skip(1)) ==> key_le(#[trigger] s.skip(1)[j].0, e.0));
        assert(forall|j: int| 1 <= j < insert_pos(e, s) ==> key_le(#[trigger] s[j].0, e.0)) by {
            assert(forall|j: int|
                1 <= j < insert_pos(e, s) ==> #[trigger] s[j] == s.skip(1)[j - 1]);
        }
    }
    lemma_insert_sorted_at(e, s, insert_pos(e, s));
}

/// Inserting into a key-sorted run keeps it sorted.
proof fn lemma_insert_keeps_sorted(e: (Seq<char>, JsonSpec), s: Seq<(Seq<char>, JsonSpec)>)
    requires
        entries_sorted(s),
    ensures
        entries_sorted(insert_sorted(e, s)),
{
    lemma_insert_pos_props(e, s);
    let p = insert_pos(e, s);
    let r = insert_sorted(e, s);
    assert(r.len() == s.len() + 1);
    if p < s.len() {
        lemma_key_le_connex(s[p].0, e.0);
    }
    assert forall|i: int, j: int| 0 <= i < j < r.len() implies key_le(
        #[trigger] r[i].0,
        #[trigger] r[j].0,
    ) by {
        let ri = if i < p { s[i] } else if i == p { e } else { s[i - 1] };
        let rj = if j < p { s[j] } else if j == p { e } else { s[j - 1] };
        assert(r[i] == ri);
        assert(r[j] == rj);
        if i < p && j == p {
            assert(key_le(s[i].0, e.0));
        } else if i == p && j > p {
            assert(key_le(e.0, s[j - 1].0)) by {
                assert(key_le(e.0, s[p].0));
                if j - 1 > p {
                    lemma_key_le_trans(e.0, s[p].0, s[j - 1].0);
                }
            }
        } else if i < p && j > p {
            assert(key_le(s[i].0, s[j - 1].0));
        }
    }
}

/// Insertion adds exactly the one entry to the contents.
proof fn lemma_insert_multiset(e: (Seq<char>, JsonSpec), s: Seq<(Seq<char>, JsonSpec)>)
    ensures
        insert_sorted(e, s).to_multiset() == s.to_multiset().insert(e),
{
    broadcast use vstd::seq_lib::group_to_multiset_ensures;

    lemma_insert_pos_props(e, s);
    let p = insert_pos(e, s);
    vstd::seq_lib::lemma_multiset_commutative(s.take(p) + seq![e], s.skip(p));
    vstd::seq_lib::lemma_multiset_commutative(s.take(p), seq![e]);
    vstd::seq_lib::lemma_multiset_commutative(s.take(p), s.skip(p));
    assert(s.take(p) + s.skip(p) =~= s);
    assert(seq![e].to_multiset() =~= Multiset::<(Seq<char>, JsonSpec)>::empty().insert(e)) by {
        assert(seq![e] =~= Seq::<(Seq<char>, JsonSpec)>::empty().push(e));
        assert(Seq::<(Seq<char>, JsonSpec)>::empty().to_multiset() =~= Multiset::<(
            Seq<char>,
            JsonSpec,
        )>::empty());
    }
    assert(insert_sorted(e, s).to_multiset() =~= s.to_multiset().insert(e));
}

/// Sorting yields a key-sorted run.
proof fn lemma_sort_sorted(s: Seq<(Seq<char>, JsonSpec)>)
    ensures
        entries_sorted(sort_entries(s)),
    decreases s.len(),
{
    if s.len() > 0 {
        lemma_sort_sorted(s.drop_last());
        lemma_insert_keeps_sorted(s.last(), sort_entries(s.drop_last()));
    }
}

/// Sorting keeps exactly the same entries.
proof fn lemma_sort_multiset(s: Seq<(Seq<char>, JsonSpec)>)
    ensures
        sort_entries(s).to_multiset() == s.to_multiset(),
    decreases s.len(),
{
    broadcast use vstd::seq_lib::group_to_multiset_ensures;

    if s.len() > 0 {
        lemma_sort_multiset(s.drop_last());
        lemma_insert_multiset(s.last(), sort_entries(s.drop_last()));
        assert(s =~= s.drop_last().push(s.last()));
        assert(sort_entries(s).to_multiset() =~= s.to_multiset());
    } else {
        assert(sort_entries(s).to_multiset() =~= s.to_multiset());
    }
}

/// An entry keyed no lower than a whole sorted run goes to its end.
proof fn lemma_insert_at_end(e: (Seq<char>, JsonSpec), s: Seq<(Seq<char>, JsonSpec)>)
    requires
        forall|j: int| 0 <= j < s.len() ==> key_le(#[trigger] s[j].0, e.0),
    ensures
        insert_sorted(e, s) == s.push(e),
    decreases s.len(),
{
    if s.len() == 0 {
        assert(insert_sorted(e, s) =~= s.push(e));
    } else {
        assert(key_le(s[0].0, e.0));
        lemma_insert_at_end(e, s.skip(1));
        assert(seq![s[0]] + s.skip(1).push(e) =~= s.push(e));
    }
}

/// Sorting an already key-sorted run changes nothing.
proof fn lemma_sort_of_sorted(s: Seq<(Seq<char>, JsonSpec)>)
    requires
        entries_sorted(s),
    ensures
        sort_entries(s) == s,
    decreases s.len(),
{
    if s.len() > 0 {
        assert(entries_sorted(s.drop_last()));
        lemma_sort_of_sorted(s.drop_last());
        lemma_insert_at_end(s.last(), s.drop_last());
        assert(s.drop_last().push(s.last()) =~= s);
    } else {
        assert(sort_entries(s) =~= s);
    }
}

/// Normalizing is idempotent: a second pass changes nothing, at any depth.
pub proof fn lemma_normalize_idempotent(v: JsonSpec)
    ensures
        normalize_spec(normalize_spec(v)) == normalize_spec(v),
    decreases v,
{
    broadcast use vstd::seq_lib::group_to_multiset_ensures;

    match v {
        JsonSpec::Null => {},
        JsonSpec::Bool(_) => {},
        JsonSpec::Str(_) => {},
        JsonSpec::Arr(items) => {
            let once = norm_list(items);
            assert forall|j: int| 0 <= j < once.len() implies #[trigger] norm_list(once)[j]
                == once[j] by {
                lemma_normalize_idempotent(items[j]);
            }
            assert(norm_list(once) =~= once);
            assert(normalize_spec(normalize_spec(v)) =~~= normalize_spec(v));
        },
        JsonSpec::Obj(es) => {
            let mapped = norm_entries(es);
            let once = sort_entries(mapped);
            lemma_sort_multiset(mapped);
            lemma_sort_sorted(mapped);
            assert forall|j: int| 0 <= j < once.len() implies #[trigger] norm_entries(once)[j]
                == once[j] by {
                assert(once.contains(once[j]));
                assert(once.to_multiset().count(once[j]) > 0);
                assert(mapped.to_multiset().count(once[j]) > 0);
                assert(mapped.contains(once[j]));
                let k = choose|k: int| 0 <= k < mapped.len() && mapped[k] == once[j];
                assert(once[j].1 == normalize_spec(es[k].1));
                lemma_normalize_idempotent(es[k].1);
                assert(norm_entries(once)[j] == (once[j].0, normalize_spec(once[j].1)));
            }
            assert(norm_entries(once) =~= once);
            lemma_sort_of_sorted(once);
            assert(normalize_spec(normalize_spec(v)) =~~= normalize_spec(v));
        },
    }
}

/// No two distinct entries of the collection share a key, and no entry
/// occurs twice.
pub open spec fn entries_distinct(m: Multiset<(Seq<char>, JsonSpec)>) -> bool {
    &&& forall|e: (Seq<char>, JsonSpec)| #[trigger] m.count(e) <= 1
    &&& forall|e: (Seq<char>, JsonSpec), f: (Seq<char>, JsonSpec)|
        m.contains(e) && m.contains(f) && #[trigger] e.0 == #[trigger] f.0 ==> e == f
}

/// No two entries of the sequence share a key.
pub open spec fn keys_unique(es: Seq<(Seq<char>, JsonSpec)>) -> bool {
    forall|i: int, j: int|
        0 <= i < j < es.len() ==> (#[trigger] es[i]).0 != (#[trigger] es[j]).0
}

/// Two key-sorted runs with the same distinct entries are equal.
proof fn lemma_sorted_unique(x: Seq<(Seq<char>, JsonSpec)>, y: Seq<(Seq<char>, JsonSpec)>)
    requires
        entries_sorted(x),
        entries_sorted(y),
        x.to_multiset() == y.to_multiset(),
        entries_distinct(x.to_multiset()),
    ensures
        x == y,
    decreases x.len(),
{
    broadcast use vstd::seq_lib::group_to_multiset_ensures;

    assert(x.to_multiset().len() == x.len());
    assert(y.to_multiset().len() == y.len());
    if x.len() == 0 {
        assert(x =~= y);
    } else {
        assert(y.len() == x.len());
        assert(x.contains(x[0]));
        assert(y.to_multiset().count(x[0]) > 0);
        assert(y.contains(x[0]));
        let k = choose|k: int| 0 <= k < y.len() && y[k] == x[0];
        assert(x.contains(y[0])) by {
            assert(y.contains(y[0]));
            assert(x.to_multiset().count(y[0]) > 0);
        }
        let m = choose|m: int| 0 <= m < x.len() && x[m] == y[0];
        assert(key_le(y[0].0, x[0].0)) by {
            if k > 0 {
                assert(key_le(y[0].0, y[k].0));
            } else {
                lemma_key_le_refl(y[0].0);
            }
        }
        assert(key_le(x[0].0, y[0].0)) by {
            if m > 0 {
                assert(key_le(x[0].0, x[m].0));
            } else {
                lemma_key_le_refl(x[0].0);
            }
        }
        lemma_key_le_antisym(x[0].0, y[0].0);
        assert(x[0] == y[0]) by {
            assert(x.to_multiset().contains(x[0]));
            assert(x.to_multiset().contains(y[0]));
        }
        let xr = x.drop_first();
        let yr = y.drop_first();
        assert(xr.to_multiset() == yr.to_multiset()) by {
            assert(x.remove(0).to_multiset() =~= x.to_multiset().remove(x[0]));
            assert(y.remove(0).to_multiset() =~= y.to_multiset().remove(y[0]));
            assert(x.remove(0) =~= xr);
            assert(y.remove(0) =~= yr);
        }
        assert(entries_sorted(xr)) by {
            assert(forall|i: int| 0 <= i < xr.len() ==> #[trigger] xr[i] == x[i + 1]);
        }
        assert(entries_sorted(yr)) by {
            assert(forall|i: int| 0 <= i < yr.len() ==> #[trigger] yr[i] == y[i + 1]);
        }
        assert(entries_distinct(xr.to_multiset())) by {
            assert(x.remove(0).to_multiset() =~= x.to_multiset().remove(x[0]));
            assert(x.remove(0) =~= xr);
            assert(xr.to_multiset() =~= x.to_multiset().remove(x[0]));
            assert(forall|e: (Seq<char>, JsonSpec)|
                #[trigger] xr.to_multiset().count(e) <= x.to_multiset().count(e));
        }
        lemma_sorted_unique(xr, yr);
        assert(x =~= seq![x[0]] + xr);
        assert(y =~= seq![y[0]] + yr);
    }
}

/// Normalizing each value keeps the multiset of entries aligned between
/// two orderings of the same entries.
proof fn lemma_norm_entries_multiset(s1: Seq<(Seq<char>, JsonSpec)>, s2: Seq<(Seq<char>, JsonSpec)>)
    requires
        s1.to_multiset() == s2.to_multiset(),
    ensures
        norm_entries(s1).to_multiset() == norm_entries(s2).to_multiset(),
    decreases s1.len(),
{
    broadcast use vstd::seq_lib::group_to_multiset_ensures;

    assert(s1.to_multiset().len() == s1.len());
    assert(s2.to_multiset().len() == s2.len());
    if s1.len() == 0 {
        assert(norm_entries(s1) =~= Seq::<(Seq<char>, JsonSpec)>::empty());
        assert(norm_entries(s2) =~= Seq::<(Seq<char>, JsonSpec)>::empty());
    } else {
        assert(s2.len() == s1.len());
        let e = s1.last();
        assert(s1.contains(e));
        assert(s2.to_multiset().count(e) > 0);
        assert(s2.contains(e));
        let k = choose|k: int| 0 <= k < s2.len() && s2[k] == e;
        let s1r = s1.drop_last();
        let s2r = s2.remove(k);
        assert(s1r.to_multiset() == s2r.to_multiset()) by {
            assert(s1.remove(s1.len() - 1).to_multiset() =~= s1.to_multiset().remove(e));
            assert(s1.remove(s1.len() - 1) =~= s1r);
            assert(s2.remove(k).to_multiset() =~= s2.to_multiset().remove(e));
        }
        lemma_norm_entries_multiset(s1r, s2r);
        let f = (e.0, normalize_spec(e.1));
        assert(norm_entries(s1).to_multiset() == norm_entries(s1r).to_multiset().insert(f)) by {
            assert(norm_entries(s1) =~= norm_entries(s1r).push(f));
        }
        assert(norm_entries(s2).to_multiset() == norm_entries(s2r).to_multiset().insert(f)) by {
            assert(norm_entries(s2).remove(k) =~= norm_entries(s2r));
            assert(norm_entries(s2)[k] == f);
            assert(norm_entries(s2).remove(k).to_multiset() =~= norm_entries(
                s2,
            ).to_multiset().remove(f));
            assert(norm_entries(s2).contains(norm_entries(s2)[k]));
            assert(norm_entries(s2).to_multiset().count(f) > 0);
            assert(norm_entries(s2).to_multiset() =~= norm_entries(
                s2,
            ).to_multiset().remove(f).insert(f));
        }
    }
}

/// A count of at least two puts the entry at two distinct positions.
proof fn lemma_count2_two_indices(s: Seq<(Seq<char>, JsonSpec)>, e: (Seq<char>, JsonSpec))
    requires
        s.to_multiset().count(e) >= 2,
    ensures
        exists|i: int, j: int| 0 <= i < j < s.len() && s[i] == e && s[j] == e,
{
    broadcast use vstd::seq_lib::group_to_multiset_ensures;

    assert(s.contains(e));
    let i = choose|i: int| 0 <= i < s.len() && s[i] == e;
    assert(s.remove(i).to_multiset() =~= s.to_multiset().remove(e));
    assert(s.remove(i).to_multiset().count(e) >= 1);
    assert(s.remove(i).contains(e));
    let j = choose|j: int| 0 <= j < s.remove(i).len() && s.remove(i)[j] == e;
    if j < i {
        assert(s[j] == e);
        assert(0 <= j < i < s.len() && s[j] == e && s[i] == e);
    } else {
        assert(s[j + 1] == e);
        assert(0 <= i < j + 1 < s.len() && s[i] == e && s[j + 1] == e);
    }
}

/// Normalization does not depend on object-entry insertion order: two
/// objects holding the same entries under distinct keys, in any orders,
/// normalize to the same value and serialize to identical text.
pub proof fn lemma_normalize_order_blind(
    es1: Seq<(Seq<char>, JsonSpec)>,
    es2: Seq<(Seq<char>, JsonSpec)>,
)
    requires
        es1.to_multiset() == es2.to_multiset(),
        keys_unique(es1),
    ensures
        normalize_spec(JsonSpec::Obj(es1)) == normalize_spec(JsonSpec::Obj(es2)),
        ser(normalize_spec(JsonSpec::Obj(es1))) == ser(normalize_spec(JsonSpec::Obj(es2))),
{
    broadcast use vstd::seq_lib::group_to_multiset_ensures;

    let m1 = norm_entries(es1);
    let m2 = norm_entries(es2);
    lemma_norm_entries_multiset(es1, es2);
    lemma_sort_sorted(m1);
    lemma_sort_sorted(m2);
    lemma_sort_multiset(m1);
    lemma_sort_multiset(m2);
    assert(keys_unique(m1)) by {
        assert(forall|i: int| 0 <= i < m1.len() ==> (#[trigger] m1[i]).0 == es1[i].0);
    }
    assert(entries_distinct(m1.to_multiset())) by {
        assert forall|e: (Seq<char>, JsonSpec)| #[trigger] m1.to_multiset().count(e) <= 1 by {
            if m1.to_multiset().count(e) >= 2 {
                lemma_count2_two_indices(m1, e);
            }
        }
        assert forall|e: (Seq<char>, JsonSpec), f: (Seq<char>, JsonSpec)|
            m1.to_multiset().contains(e) && m1.to_multiset().contains(f) && #[trigger] e.0
                == #[trigger] f.0 implies e == f by {
            assert(m1.contains(e));
            assert(m1.contains(f));
            let i = choose|i: int| 0 <= i < m1.len() && m1[i] == e;
            let j = choose|j: int| 0 <= j < m1.len() && m1[j] == f;
            assert(i == j);
        }
    }
    lemma_sorted_unique(sort_entries(m1), sort_entries(m2));
}

} // verus!
