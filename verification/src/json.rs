//! The JSON wire format shared with the analysis daemon.
//!
//! `SpecJson` is the mathematical model of a document; `JsonValue` is its
//! executable counterpart. Serialization is specified by `ser_json` and
//! implemented by `write_json`.

use vstd::prelude::*;

verus! {

/// Mathematical model of a JSON document.
pub enum SpecJson {
    Null,
    Bool(bool),
    Int(int),
    Str(Seq<char>),
    Arr(Seq<SpecJson>),
    Obj(Seq<(Seq<char>, SpecJson)>),
}

/// Executable JSON value. Numbers are limited to `i64`: the daemon protocol
/// only ever carries small integer counts.
pub enum JsonValue {
    Null,
    Bool(bool),
    Int(i64),
    Str(String),
    Arr(Vec<JsonValue>),
    Obj(Vec<(String, JsonValue)>),
}

impl JsonValue {
    /// The document a `JsonValue` stands for.
    pub open spec fn deep(self) -> SpecJson
        decreases self, 0int,
    {
        match self {
            JsonValue::Null => SpecJson::Null,
            JsonValue::Bool(b) => SpecJson::Bool(b),
            JsonValue::Int(n) => SpecJson::Int(n as int),
            JsonValue::Str(s) => SpecJson::Str(s@),
            JsonValue::Arr(a) => SpecJson::Arr(deep_seq(a@)),
            JsonValue::Obj(o) => SpecJson::Obj(deep_fields(o@)),
        }
    }
}

/// Element-wise model of a vector of values.
pub open spec fn deep_seq(a: Seq<JsonValue>) -> Seq<SpecJson>
    decreases a, 0int,
{
    Seq::new(
        a.len(),
        |i: int|
            if 0 <= i < a.len() {
                a[i].deep()
            } else {
                SpecJson::Null
            },
    )
}

/// Element-wise model of a vector of object fields.
pub open spec fn deep_fields(o: Seq<(String, JsonValue)>) -> Seq<(Seq<char>, SpecJson)>
    decreases o, 0int,
{
    Seq::new(
        o.len(),
        |i: int|
            if 0 <= i < o.len() {
                (o[i].0@, o[i].1.deep())
            } else {
                (Seq::<char>::empty(), SpecJson::Null)
            },
    )
}

impl View for JsonValue {
    type V = SpecJson;

    open spec fn view(&self) -> SpecJson {
        self.deep()
    }
}

/// Every integer in the document fits in `i64`. This holds of the view of
/// every `JsonValue`, and is what the parser can reconstruct.
pub open spec fn wf_json(v: SpecJson) -> bool
    decreases v,
{
    match v {
        SpecJson::Int(n) => i64::MIN <= n <= i64::MAX,
        SpecJson::Arr(es) => forall|i: int| 0 <= i < es.len() ==> wf_json(#[trigger] es[i]),
        SpecJson::Obj(fs) => forall|i: int| 0 <= i < fs.len() ==> wf_json(#[trigger] fs[i].1),
        _ => true,
    }
}

/// The view of an executable value is always well formed.
pub proof fn lemma_view_wf(v: JsonValue)
    ensures
        wf_json(v@),
    decreases v,
{
    match v {
        JsonValue::Arr(a) => {
            assert forall|i: int| 0 <= i < a@.len() implies wf_json(#[trigger] v@->Arr_0[i]) by {
                lemma_view_wf(a@[i]);
            }
        }
        JsonValue::Obj(o) => {
            assert forall|i: int| 0 <= i < o@.len() implies wf_json(#[trigger] v@->Obj_0[i].1) by {
                lemma_view_wf(o@[i].1);
            }
        }
        _ => {}
    }
}

/// How one character appears inside a JSON string literal.
pub open spec fn esc_char(c: char) -> Seq<char> {
    if c == '"' {
        seq!['\\', '"']
    } else if c == '\\' {
        seq!['\\', '\\']
    } else if c == '\n' {
        seq!['\\', 'n']
    } else if c == '\r' {
        seq!['\\', 'r']
    } else if c == '\t' {
        seq!['\\', 't']
    } else {
        seq![c]
    }
}

/// The body of a JSON string literal: each character escaped.
pub open spec fn esc_str(s: Seq<char>) -> Seq<char>
    decreases s.len(),
{
    if s.len() == 0 {
        Seq::empty()
    } else {
        esc_char(s[0]) + esc_str(s.skip(1))
    }
}

/// Escaping distributes over concatenation.
pub proof fn lemma_esc_concat(a: Seq<char>, b: Seq<char>)
    ensures
        esc_str(a + b) == esc_str(a) + esc_str(b),
    decreases a.len(),
{
    if a.len() == 0 {
        assert(a + b =~= b);
        assert(esc_str(a) + esc_str(b) =~= esc_str(b));
    } else {
        assert((a + b).skip(1) =~= a.skip(1) + b);
        lemma_esc_concat(a.skip(1), b);
        assert((a + b).len() > 0);
        assert((a + b)[0] == a[0]);
        assert(esc_char(a[0]) + (esc_str(a.skip(1)) + esc_str(b)) =~= (esc_char(a[0]) + esc_str(
            a.skip(1),
        )) + esc_str(b));
    }
}

/// The decimal digit for `d` (0 through 9).
pub open spec fn digit_char(d: int) -> char {
    if d == 0 {
        '0'
    } else if d == 1 {
        '1'
    } else if d == 2 {
        '2'
    } else if d == 3 {
        '3'
    } else if d == 4 {
        '4'
    } else if d == 5 {
        '5'
    } else if d == 6 {
        '6'
    } else if d == 7 {
        '7'
    } else if d == 8 {
        '8'
    } else {
        '9'
    }
}

/// Decimal digits of a nonnegative number, most significant first.
pub open spec fn dec_seq(n: int) -> Seq<char>
    decreases n,
{
    if n < 10 {
        seq![digit_char(n)]
    } else {
        dec_seq(n / 10).push(digit_char(n % 10))
    }
}

/// Decimal text of an integer, with a leading minus sign when negative.
pub open spec fn ser_int(n: int) -> Seq<char> {
    if n < 0 {
        seq!['-'] + dec_seq(-n)
    } else {
        dec_seq(n)
    }
}

/// Serialization of a document: compact JSON, no interior whitespace.
pub open spec fn ser_json(v: SpecJson) -> Seq<char>
    decreases v, 2int,
{
    match v {
        SpecJson::Null => seq!['n', 'u', 'l', 'l'],
        SpecJson::Bool(b) => if b {
            seq!['t', 'r', 'u', 'e']
        } else {
            seq!['f', 'a', 'l', 's', 'e']
        },
        SpecJson::Int(n) => ser_int(n),
        SpecJson::Str(s) => seq!['"'] + esc_str(s) + seq!['"'],
        SpecJson::Arr(es) => seq!['['] + ser_items(es) + seq![']'],
        SpecJson::Obj(fs) => seq!['{'] + ser_fields(fs) + seq!['}'],
    }
}

/// Comma-separated serialization of array elements.
pub open spec fn ser_items(es: Seq<SpecJson>) -> Seq<char>
    decreases es, 1int,
{
    if es.len() == 0 {
        Seq::empty()
    } else if es.len() == 1 {
        ser_json(es[0])
    } else {
        ser_json(es[0]) + seq![','] + ser_items(es.subrange(1, es.len() as int))
    }
}

/// Comma-separated serialization of object fields.
pub open spec fn ser_fields(fs: Seq<(Seq<char>, SpecJson)>) -> Seq<char>
    decreases fs, 1int,
{
    if fs.len() == 0 {
        Seq::empty()
    } else if fs.len() == 1 {
        ser_field(fs[0])
    } else {
        ser_field(fs[0]) + seq![','] + ser_fields(fs.subrange(1, fs.len() as int))
    }
}

/// Serialization of one object field: quoted key, colon, value.
pub open spec fn ser_field(f: (Seq<char>, SpecJson)) -> Seq<char>
    decreases f, 3int,
{
    seq!['"'] + esc_str(f.0) + seq!['"', ':'] + ser_json(f.1)
}

/// The digit character for `d`.
fn digit_of(d: u64) -> (c: char)
    requires
        d < 10,
    ensures
        c == digit_char(d as int),
{
    if d == 0 {
        '0'
    } else if d == 1 {
        '1'
    } else if d == 2 {
        '2'
    } else if d == 3 {
        '3'
    } else if d == 4 {
        '4'
    } else if d == 5 {
        '5'
    } else if d == 6 {
        '6'
    } else if d == 7 {
        '7'
    } else if d == 8 {
        '8'
    } else {
        '9'
    }
}

/// Appends the decimal digits of `n`.
pub fn write_dec(n: u64, out: &mut Vec<char>)
    ensures
        final(out)@ == old(out)@ + dec_seq(n as int),
    decreases n,
{
    if n < 10 {
        out.push(digit_of(n));
        assert(out@ =~= old(out)@ + dec_seq(n as int));
    } else {
        write_dec(n / 10, out);
        out.push(digit_of(n % 10));
        assert(out@ =~= old(out)@ + dec_seq(n as int));
    }
}

/// Appends the decimal text of `n`, minus sign included.
pub fn write_int(n: i64, out: &mut Vec<char>)
    ensures
        final(out)@ == old(out)@ + ser_int(n as int),
{
    if n >= 0 {
        write_dec(n as u64, out);
    } else if n == i64::MIN {
        out.push('-');
        write_dec(9223372036854775808u64, out);
        assert(out@ =~= old(out)@ + ser_int(n as int));
    } else {
        out.push('-');
        write_dec((-n) as u64, out);
        assert(out@ =~= old(out)@ + ser_int(n as int));
    }
}

/// Appends the escaped form of the characters in `cs`.
fn write_escaped(cs: &Vec<char>, out: &mut Vec<char>)
    ensures
        final(out)@ == old(out)@ + esc_str(cs@),
{
    let mut i: usize = 0;
    while i < cs.len()
        invariant
            i <= cs@.len(),
            out@ == old(out)@ + esc_str(cs@.take(i as int)),
        decreases cs@.len() - i,
    {
        let c = cs[i];
        if c == '"' {
            out.push('\\');
            out.push('"');
        } else if c == '\\' {
            out.push('\\');
            out.push('\\');
        } else if c == '\n' {
            out.push('\\');
            out.push('n');
        } else if c == '\r' {
            out.push('\\');
            out.push('r');
        } else if c == '\t' {
            out.push('\\');
            out.push('t');
        } else {
            out.push(c);
        }
        proof {
            let cc = cs@[i as int];
            lemma_esc_concat(cs@.take(i as int), seq![cc]);
            assert(cs@.take(i + 1) =~= cs@.take(i as int) + seq![cc]);
            assert(seq![cc].skip(1) =~= Seq::<char>::empty());
            assert(esc_str(Seq::<char>::empty()) == Seq::<char>::empty());
            assert(esc_str(seq![cc]) == esc_char(seq![cc][0]) + esc_str(seq![cc].skip(1)));
            assert(esc_str(seq![cc]) =~= esc_char(cc));
            assert(out@ =~= old(out)@ + esc_str(cs@.take(i + 1)));
        }
        i = i + 1;
    }
    proof {
        assert(cs@.take(cs@.len() as int) =~= cs@);
    }
}

/// Appends a quoted, escaped JSON string literal.
fn write_quoted(s: &str, out: &mut Vec<char>)
    ensures
        final(out)@ == old(out)@ + seq!['"'] + esc_str(s@) + seq!['"'],
{
    out.push('"');
    let cs = crate::text::chars_of(s);
    write_escaped(&cs, out);
    out.push('"');
    assert(out@ =~= old(out)@ + seq!['"'] + esc_str(s@) + seq!['"']);
}

/// Appends the compact JSON serialization of `v`.
pub fn write_json(v: &JsonValue, out: &mut Vec<char>)
    ensures
        final(out)@ == old(out)@ + ser_json(v@),
    decreases v, 2int,
{
    match v {
        JsonValue::Null => {
            out.push('n');
            out.push('u');
            out.push('l');
            out.push('l');
            assert(out@ =~= old(out)@ + ser_json(v@));
        }
        JsonValue::Bool(b) => {
            if *b {
                out.push('t');
                out.push('r');
                out.push('u');
                out.push('e');
            } else {
                out.push('f');
                out.push('a');
                out.push('l');
                out.push('s');
                out.push('e');
            }
            assert(out@ =~= old(out)@ + ser_json(v@));
        }
        JsonValue::Int(n) => {
            write_int(*n, out);
        }
        JsonValue::Str(s) => {
            write_quoted(s.as_str(), out);
        }
        JsonValue::Arr(a) => {
            out.push('[');
            write_items(a, 0, out);
            out.push(']');
            proof {
                assert(deep_seq(a@).subrange(0, a@.len() as int) =~= deep_seq(a@));
                assert(out@ =~= old(out)@ + ser_json(v@));
            }
        }
        JsonValue::Obj(o) => {
            out.push('{');
            write_fields(o, 0, out);
            out.push('}');
            proof {
                assert(deep_fields(o@).subrange(0, o@.len() as int) =~= deep_fields(o@));
                assert(out@ =~= old(out)@ + ser_json(v@));
            }
        }
    }
}

/// Appends the elements of `a` from index `from` on, comma separated.
fn write_items(a: &Vec<JsonValue>, from: usize, out: &mut Vec<char>)
    requires
        from <= a@.len(),
    ensures
        final(out)@ == old(out)@ + ser_items(deep_seq(a@).subrange(from as int, a@.len() as int)),
    decreases a@, a@.len() - from,
{
    let ghost tail = deep_seq(a@).subrange(from as int, a@.len() as int);
    if from == a.len() {
        assert(out@ =~= old(out)@ + ser_items(tail));
    } else {
        write_json(&a[from], out);
        assert(tail[0] == a@[from as int].deep());
        if from + 1 == a.len() {
            assert(out@ =~= old(out)@ + ser_items(tail));
        } else {
            out.push(',');
            write_items(a, from + 1, out);
            proof {
                assert(tail.subrange(1, tail.len() as int) =~= deep_seq(a@).subrange(
                    from + 1,
                    a@.len() as int,
                ));
                assert(out@ =~= old(out)@ + ser_items(tail));
            }
        }
    }
}

/// Appends the fields of `o` from index `from` on, comma separated.
fn write_fields(o: &Vec<(String, JsonValue)>, from: usize, out: &mut Vec<char>)
    requires
        from <= o@.len(),
    ensures
        final(out)@ == old(out)@ + ser_fields(deep_fields(o@).subrange(from as int, o@.len() as int)),
    decreases o@, o@.len() - from,
{
    let ghost tail = deep_fields(o@).subrange(from as int, o@.len() as int);
    if from == o.len() {
        assert(out@ =~= old(out)@ + ser_fields(tail));
    } else {
        let f = &o[from];
        write_quoted(f.0.as_str(), out);
        out.push(':');
        write_json(&f.1, out);
        proof {
            assert(tail[0] == (o@[from as int].0@, o@[from as int].1.deep()));
            assert(ser_field(tail[0]) =~= seq!['"'] + esc_str(o@[from as int].0@) + seq!['"', ':']
                + ser_json(o@[from as int].1.deep()));
        }
        if from + 1 == o.len() {
            assert(out@ =~= old(out)@ + ser_fields(tail));
        } else {
            out.push(',');
            write_fields(o, from + 1, out);
            proof {
                assert(tail.subrange(1, tail.len() as int) =~= deep_fields(o@).subrange(
                    from + 1,
                    o@.len() as int,
                ));
                assert(out@ =~= old(out)@ + ser_fields(tail));
            }
        }
    }
}

/// First field of `fs` named `k`, if any.
pub open spec fn lookup_fields(fs: Seq<(Seq<char>, SpecJson)>, k: Seq<char>) -> Option<SpecJson>
    decreases fs.len(),
{
    if fs.len() == 0 {
        None
    } else if fs[0].0 == k {
        Some(fs[0].1)
    } else {
        lookup_fields(fs.skip(1), k)
    }
}

/// Field `k` of `v`, when `v` is an object that has it.
pub open spec fn lookup(v: SpecJson, k: Seq<char>) -> Option<SpecJson> {
    match v {
        SpecJson::Obj(fs) => lookup_fields(fs, k),
        _ => None,
    }
}

/// Character-wise string equality.
pub fn str_eq(a: &str, b: &str) -> (r: bool)
    ensures
        r == (a@ == b@),
{
    let av = crate::text::chars_of(a);
    let bv = crate::text::chars_of(b);
    if av.len() != bv.len() {
        return false;
    }
    let mut q: usize = 0;
    while q < av.len()
        invariant
            q <= av@.len(),
            av@.len() == bv@.len(),
            av@ == a@,
            bv@ == b@,
            forall|j: int| 0 <= j < q ==> av@[j] == bv@[j],
        decreases av@.len() - q,
    {
        if av[q] != bv[q] {
            return false;
        }
        q = q + 1;
    }
    proof {
        assert(a@ =~= b@);
    }
    true
}

/// The field named `key` of `v`, when `v` is an object that has one.
pub fn get_field<'a>(v: &'a JsonValue, key: &str) -> (r: Option<&'a JsonValue>)
    ensures
        (r matches Some(w) ==> lookup(v@, key@) == Some(w@)),
        (r is None ==> lookup(v@, key@) is None),
{
    match v {
        JsonValue::Obj(fields) => {
            proof {
                assert(deep_fields(fields@).skip(0) =~= deep_fields(fields@));
            }
            let mut q: usize = 0;
            while q < fields.len()
                invariant
                    q <= fields@.len(),
                    v@ == SpecJson::Obj(deep_fields(fields@)),
                    lookup_fields(deep_fields(fields@), key@) == lookup_fields(
                        deep_fields(fields@).skip(q as int),
                        key@,
                    ),
                decreases fields@.len() - q,
            {
                if str_eq(fields[q].0.as_str(), key) {
                    proof {
                        let fs = deep_fields(fields@);
                        assert(fs.skip(q as int)[0] == fs[q as int]);
                        assert(fs[q as int] == (fields@[q as int].0@, fields@[q as int].1.deep()));
                        assert(fs[q as int].0 == key@);
                        assert(lookup_fields(fs.skip(q as int), key@) == Some(fs[q as int].1));
                        assert(v@ == SpecJson::Obj(fs));
                        assert(lookup(v@, key@) == lookup_fields(fs, key@));
                        assert(fields@[q as int].1.deep() == fs[q as int].1);
                    }
                    return Some(&fields[q].1);
                }
                proof {
                    let fs = deep_fields(fields@);
                    assert(fs.skip(q as int)[0] == fs[q as int]);
                    assert(fs.skip(q as int).skip(1) =~= fs.skip(q + 1));
                }
                q = q + 1;
            }
            proof {
                assert(deep_fields(fields@).skip(q as int) =~= Seq::<(Seq<char>, SpecJson)>::empty());
            }
            None
        }
        _ => None,
    }
}

/// `n` spaces.
pub open spec fn spaces(n: nat) -> Seq<char>
    decreases n,
{
    if n == 0 {
        Seq::empty()
    } else {
        spaces((n - 1) as nat).push(' ')
    }
}

/// Pretty serialization at indentation `ind`: nested values on their own
/// lines, two more spaces per level.
pub open spec fn pretty_json(v: SpecJson, ind: nat) -> Seq<char>
    decreases v, 2int,
{
    match v {
        SpecJson::Arr(es) => if es.len() == 0 {
            seq!['[', ']']
        } else {
            seq!['[', '\n'] + pretty_items(es, (ind + 2) as nat) + seq!['\n'] + spaces(ind)
                + seq![']']
        },
        SpecJson::Obj(fs) => if fs.len() == 0 {
            seq!['{', '}']
        } else {
            seq!['{', '\n'] + pretty_fields(fs, (ind + 2) as nat) + seq!['\n'] + spaces(ind)
                + seq!['}']
        },
        _ => ser_json(v),
    }
}

/// Array elements, one per line, comma separated.
pub open spec fn pretty_items(es: Seq<SpecJson>, ind: nat) -> Seq<char>
    decreases es, 1int,
{
    if es.len() == 0 {
        Seq::empty()
    } else if es.len() == 1 {
        spaces(ind) + pretty_json(es[0], ind)
    } else {
        spaces(ind) + pretty_json(es[0], ind) + seq![',', '\n'] + pretty_items(
            es.subrange(1, es.len() as int),
            ind,
        )
    }
}

/// Object fields, one per line, comma separated.
pub open spec fn pretty_fields(fs: Seq<(Seq<char>, SpecJson)>, ind: nat) -> Seq<char>
    decreases fs, 1int,
{
    if fs.len() == 0 {
        Seq::empty()
    } else if fs.len() == 1 {
        pretty_field(fs[0], ind)
    } else {
        pretty_field(fs[0], ind) + seq![',', '\n'] + pretty_fields(
            fs.subrange(1, fs.len() as int),
            ind,
        )
    }
}

/// One object field on its own line: indentation, quoted key, colon, value.
pub open spec fn pretty_field(f: (Seq<char>, SpecJson), ind: nat) -> Seq<char>
    decreases f, 3int,
{
    spaces(ind) + seq!['"'] + esc_str(f.0) + seq!['"', ':', ' '] + pretty_json(f.1, ind)
}

/// The pad holds only spaces.
pub open spec fn is_pad(p: Seq<char>) -> bool {
    p == spaces(p.len())
}

/// Appends the current indentation.
fn write_pad(pad: &Vec<char>, out: &mut Vec<char>)
    ensures
        final(out)@ == old(out)@ + pad@,
{
    let mut q: usize = 0;
    while q < pad.len()
        invariant
            q <= pad@.len(),
            out@ == old(out)@ + pad@.take(q as int),
        decreases pad@.len() - q,
    {
        out.push(pad[q]);
        proof {
            assert(pad@.take(q + 1) =~= pad@.take(q as int).push(pad@[q as int]));
            assert(out@ =~= old(out)@ + pad@.take(q + 1));
        }
        q = q + 1;
    }
    proof {
        assert(pad@.take(pad@.len() as int) =~= pad@);
    }
}

/// Appends the pretty serialization of `v` at the indentation the pad holds.
fn write_pretty(v: &JsonValue, pad: &mut Vec<char>, out: &mut Vec<char>)
    requires
        is_pad(old(pad)@),
    ensures
        final(pad)@ == old(pad)@,
        final(out)@ == old(out)@ + pretty_json(v@, old(pad)@.len()),
    decreases v, 2int,
{
    match v {
        JsonValue::Arr(a) => {
            if a.len() == 0 {
                out.push('[');
                out.push(']');
                assert(out@ =~= old(out)@ + pretty_json(v@, old(pad)@.len()));
            } else {
                out.push('[');
                out.push('\n');
                pad.push(' ');
                pad.push(' ');
                proof {
                    assert(spaces(old(pad)@.len() + 1) =~= spaces(old(pad)@.len()).push(' '));
                    assert(spaces(old(pad)@.len() + 2) =~= spaces(old(pad)@.len() + 1).push(' '));
                    assert(is_pad(pad@));
                }
                write_pretty_items(a, 0, pad, out);
                pad.pop();
                pad.pop();
                out.push('\n');
                write_pad(pad, out);
                out.push(']');
                proof {
                    assert(pad@ =~= old(pad)@);
                    assert(deep_seq(a@).subrange(0, a@.len() as int) =~= deep_seq(a@));
                    assert(deep_seq(a@).len() > 0);
                    assert(out@ =~= old(out)@ + pretty_json(v@, old(pad)@.len()));
                }
            }
        }
        JsonValue::Obj(o) => {
            if o.len() == 0 {
                out.push('{');
                out.push('}');
                assert(out@ =~= old(out)@ + pretty_json(v@, old(pad)@.len()));
            } else {
                out.push('{');
                out.push('\n');
                pad.push(' ');
                pad.push(' ');
                proof {
                    assert(spaces(old(pad)@.len() + 1) =~= spaces(old(pad)@.len()).push(' '));
                    assert(spaces(old(pad)@.len() + 2) =~= spaces(old(pad)@.len() + 1).push(' '));
                    assert(is_pad(pad@));
                }
                write_pretty_fields(o, 0, pad, out);
                pad.pop();
                pad.pop();
                out.push('\n');
                write_pad(pad, out);
                out.push('}');
                proof {
                    assert(pad@ =~= old(pad)@);
                    assert(deep_fields(o@).subrange(0, o@.len() as int) =~= deep_fields(o@));
                    assert(deep_fields(o@).len() > 0);
                    assert(out@ =~= old(out)@ + pretty_json(v@, old(pad)@.len()));
                }
            }
        }
        _ => {
            write_json(v, out);
            assert(out@ =~= old(out)@ + pretty_json(v@, old(pad)@.len()));
        }
    }
}

/// Appends the elements of `a` from `from` on, pretty form.
fn write_pretty_items(a: &Vec<JsonValue>, from: usize, pad: &mut Vec<char>, out: &mut Vec<char>)
    requires
        from <= a@.len(),
        is_pad(old(pad)@),
    ensures
        final(pad)@ == old(pad)@,
        final(out)@ == old(out)@ + pretty_items(
            deep_seq(a@).subrange(from as int, a@.len() as int),
            old(pad)@.len(),
        ),
    decreases a@, a@.len() - from,
{
    let ghost tail = deep_seq(a@).subrange(from as int, a@.len() as int);
    if from == a.len() {
        assert(out@ =~= old(out)@ + pretty_items(tail, old(pad)@.len()));
    } else {
        write_pad(pad, out);
        write_pretty(&a[from], pad, out);
        assert(tail[0] == a@[from as int].deep());
        if from + 1 == a.len() {
            assert(out@ =~= old(out)@ + pretty_items(tail, old(pad)@.len()));
        } else {
            out.push(',');
            out.push('\n');
            write_pretty_items(a, from + 1, pad, out);
            proof {
                assert(tail.subrange(1, tail.len() as int) =~= deep_seq(a@).subrange(
                    from + 1,
                    a@.len() as int,
                ));
                assert(out@ =~= old(out)@ + pretty_items(tail, old(pad)@.len()));
            }
        }
    }
}

/// Appends the fields of `o` from `from` on, pretty form.
fn write_pretty_fields(
    o: &Vec<(String, JsonValue)>,
    from: usize,
    pad: &mut Vec<char>,
    out: &mut Vec<char>,
)
    requires
        from <= o@.len(),
        is_pad(old(pad)@),
    ensures
        final(pad)@ == old(pad)@,
        final(out)@ == old(out)@ + pretty_fields(
            deep_fields(o@).subrange(from as int, o@.len() as int),
            old(pad)@.len(),
        ),
    decreases o@, o@.len() - from,
{
    let ghost tail = deep_fields(o@).subrange(from as int, o@.len() as int);
    if from == o.len() {
        assert(out@ =~= old(out)@ + pretty_fields(tail, old(pad)@.len()));
    } else {
        write_pad(pad, out);
        let f = &o[from];
        write_quoted(f.0.as_str(), out);
        out.push(':');
        out.push(' ');
        write_pretty(&f.1, pad, out);
        proof {
            assert(tail[0] == (o@[from as int].0@, o@[from as int].1.deep()));
            assert(pretty_field(tail[0], old(pad)@.len()) =~= spaces(old(pad)@.len()) + seq!['"']
                + esc_str(o@[from as int].0@) + seq!['"', ':', ' '] + pretty_json(
                o@[from as int].1.deep(),
                old(pad)@.len(),
            ));
        }
        if from + 1 == o.len() {
            assert(out@ =~= old(out)@ + pretty_fields(tail, old(pad)@.len()));
        } else {
            out.push(',');
            out.push('\n');
            write_pretty_fields(o, from + 1, pad, out);
            proof {
                assert(tail.subrange(1, tail.len() as int) =~= deep_fields(o@).subrange(
                    from + 1,
                    o@.len() as int,
                ));
                assert(out@ =~= old(out)@ + pretty_fields(tail, old(pad)@.len()));
            }
        }
    }
}

/// The pretty JSON text of `v`.
pub fn to_pretty_text(v: &JsonValue) -> (r: String)
    ensures
        r@ == pretty_json(v@, 0),
{
    let mut out: Vec<char> = Vec::new();
    let mut pad: Vec<char> = Vec::new();
    proof {
        assert(pad@ =~= spaces(pad@.len()));
    }
    write_pretty(v, &mut pad, &mut out);
    assert(out@ =~= pretty_json(v@, 0));
    crate::text::string_of(out)
}

/// The compact JSON text of `v`.
pub fn to_json_text(v: &JsonValue) -> (r: String)
    ensures
        r@ == ser_json(v@),
{
    let mut out: Vec<char> = Vec::new();
    write_json(v, &mut out);
    assert(out@ =~= ser_json(v@));
    crate::text::string_of(out)
}

} // verus!
