//! Parser for the JSON wire format.
//!
//! The parser is proved complete against the serializer: whenever the input
//! holds the serialization of a well-formed document, parsing returns that
//! document and consumes exactly its text. Together with `write_json` this
//! gives the serialize/parse round trip for every request the library builds.

use vstd::prelude::*;

use crate::json::{
    dec_seq, deep_fields, deep_seq, digit_char, esc_char, esc_str, lemma_esc_concat, ser_field,
    ser_fields, ser_int, ser_items, ser_json, wf_json, JsonValue, SpecJson,
};

verus! {

/// A decimal digit character.
pub open spec fn is_digit(c: char) -> bool {
    c == '0' || c == '1' || c == '2' || c == '3' || c == '4' || c == '5' || c == '6' || c == '7'
        || c == '8' || c == '9'
}

/// The value of a digit character.
pub open spec fn digit_val(c: char) -> int {
    if c == '0' {
        0
    } else if c == '1' {
        1
    } else if c == '2' {
        2
    } else if c == '3' {
        3
    } else if c == '4' {
        4
    } else if c == '5' {
        5
    } else if c == '6' {
        6
    } else if c == '7' {
        7
    } else if c == '8' {
        8
    } else if c == '9' {
        9
    } else {
        0
    }
}

/// The number a digit string denotes, most significant digit first.
pub open spec fn dec_val(d: Seq<char>) -> int
    decreases d.len(),
{
    if d.len() == 0 {
        0
    } else {
        dec_val(d.drop_last()) * 10 + digit_val(d.last())
    }
}

/// Digit-string values are never negative.
pub proof fn lemma_dec_val_nonneg(d: Seq<char>)
    ensures
        dec_val(d) >= 0,
    decreases d.len(),
{
    if d.len() > 0 {
        lemma_dec_val_nonneg(d.drop_last());
    }
}

/// `dec_seq` produces only digits.
pub proof fn lemma_dec_digits(n: int)
    requires
        n >= 0,
    ensures
        dec_seq(n).len() >= 1,
        forall|q: int| 0 <= q < dec_seq(n).len() ==> is_digit(#[trigger] dec_seq(n)[q]),
    decreases n,
{
    if n < 10 {
        assert(is_digit(digit_char(n)));
    } else {
        lemma_dec_digits(n / 10);
        assert(is_digit(digit_char(n % 10)));
        assert forall|q: int| 0 <= q < dec_seq(n).len() implies is_digit(
            #[trigger] dec_seq(n)[q],
        ) by {
            if q < dec_seq(n / 10).len() {
                assert(dec_seq(n)[q] == dec_seq(n / 10)[q]);
            } else {
                assert(dec_seq(n)[q] == digit_char(n % 10));
            }
        }
    }
}

/// Reading back the digits of `n` gives `n`.
pub proof fn lemma_dec_val_of_dec_seq(n: int)
    requires
        n >= 0,
    ensures
        dec_val(dec_seq(n)) == n,
    decreases n,
{
    if n < 10 {
        assert(dec_seq(n) == seq![digit_char(n)]);
        assert(seq![digit_char(n)].drop_last() =~= Seq::<char>::empty());
        reveal_with_fuel(dec_val, 2);
        assert(dec_val(seq![digit_char(n)]) == digit_val(digit_char(n)));
    } else {
        lemma_dec_val_of_dec_seq(n / 10);
        assert(dec_seq(n).drop_last() =~= dec_seq(n / 10));
        assert(dec_seq(n).last() == digit_char(n % 10));
        assert(digit_val(digit_char(n % 10)) == n % 10);
    }
}

/// A prefix of a digit string denotes at most the whole string's value.
pub proof fn lemma_dec_val_take_le(d: Seq<char>, k: int)
    requires
        0 <= k <= d.len(),
    ensures
        dec_val(d.take(k)) <= dec_val(d),
    decreases d.len() - k,
{
    if k == d.len() {
        assert(d.take(k) =~= d);
    } else {
        lemma_dec_val_take_le(d, k + 1);
        assert(d.take(k + 1).drop_last() =~= d.take(k));
        assert(d.take(k + 1).last() == d[k]);
        lemma_dec_val_nonneg(d.take(k));
    }
}

/// The text starting at `p` is exactly `t`.
pub open spec fn seg_at(s: Seq<char>, p: int, t: Seq<char>) -> bool {
    &&& 0 <= p
    &&& p + t.len() <= s.len()
    &&& s.subrange(p, p + t.len()) == t
}

/// Within a segment, the text agrees pointwise.
pub proof fn lemma_seg_index(s: Seq<char>, p: int, t: Seq<char>, q: int)
    requires
        seg_at(s, p, t),
        0 <= q < t.len(),
    ensures
        s[p + q] == t[q],
{
    assert(s.subrange(p, p + t.len())[q] == t[q]);
    assert(s.subrange(p, p + t.len())[q] == s[p + q]);
}

/// A segment made of two parts splits into segments of the parts.
pub proof fn lemma_seg_split(s: Seq<char>, p: int, a: Seq<char>, b: Seq<char>)
    requires
        seg_at(s, p, a + b),
    ensures
        seg_at(s, p, a),
        seg_at(s, p + a.len(), b),
{
    assert forall|q: int| 0 <= q < a.len() implies s.subrange(p, p + a.len())[q] == a[q] by {
        lemma_seg_index(s, p, a + b, q);
        assert((a + b)[q] == a[q]);
    }
    assert(s.subrange(p, p + a.len()) =~= a);
    assert forall|q: int|
        0 <= q < b.len() implies s.subrange(p + a.len(), p + a.len() + b.len())[q] == b[q] by {
        lemma_seg_index(s, p, a + b, a.len() + q);
        assert((a + b)[a.len() + q] == b[q]);
    }
    assert(s.subrange(p + a.len(), p + a.len() + b.len()) =~= b);
}

/// No number continues past `k`: the round-trip boundary condition.
pub open spec fn at_boundary(s: Seq<char>, k: int) -> bool {
    k == s.len() || !is_digit(s[k])
}

/// The text at `i` is exactly the serialization of the well-formed document
/// `jv`, followed by a boundary. This is the premise under which the parser
/// is proved to return `jv`.
pub open spec fn complete_at(s: Seq<char>, i: int, jv: SpecJson) -> bool {
    &&& wf_json(jv)
    &&& seg_at(s, i, ser_json(jv))
    &&& at_boundary(s, i + ser_json(jv).len())
}

/// A string-literal body (already escaped) sits at `p`, closed by a quote.
pub open spec fn str_body_at(s: Seq<char>, p: int, t: Seq<char>) -> bool {
    &&& 0 <= p
    &&& p + esc_str(t).len() + 1 <= s.len()
    &&& s.subrange(p, p + esc_str(t).len()) == esc_str(t)
    &&& s[p + esc_str(t).len()] == '"'
}

/// Peeling one character off a string-literal body.
proof fn lemma_body_step(s: Seq<char>, p: int, t: Seq<char>)
    requires
        str_body_at(s, p, t),
        t.len() > 0,
    ensures
        p + esc_char(t[0]).len() <= s.len(),
        s[p] == esc_char(t[0])[0],
        esc_char(t[0]).len() == 2 ==> s[p + 1] == esc_char(t[0])[1],
        str_body_at(s, p + esc_char(t[0]).len(), t.skip(1)),
{
    assert(esc_str(t) == esc_char(t[0]) + esc_str(t.skip(1)));
    let e = esc_char(t[0]);
    let rest = esc_str(t.skip(1));
    assert(seg_at(s, p, e + rest));
    lemma_seg_split(s, p, e, rest);
    lemma_seg_index(s, p, e, 0);
    if e.len() == 2 {
        lemma_seg_index(s, p, e, 1);
    }
    assert(s[p + esc_str(t).len()] == '"');
    assert((p + e.len()) + esc_str(t.skip(1)).len() == p + esc_str(t).len());
}

/// Scans a string-literal body starting at `start` (just past the opening
/// quote), un-escaping as it goes, and stops after the closing quote.
#[verifier::rlimit(60)]
fn scan_string(s: &Vec<char>, start: usize) -> (r: Option<(Vec<char>, usize)>)
    requires
        start <= s@.len(),
    ensures
        (r matches Some(p) ==> start < p.1 <= s@.len()),
        forall|t: Seq<char>| str_body_at(s@, start as int, t) ==> (r matches Some(p) && p.0@ == t
            && p.1 as int == start + esc_str(t).len() + 1),
{
    let mut pos = start;
    let mut acc: Vec<char> = Vec::new();
    proof {
        assert forall|t: Seq<char>|
            str_body_at(s@, start as int, t) implies (acc@ == t.take(acc@.len() as int)
            && pos as int == start + esc_str(acc@).len() && str_body_at(
            s@,
            pos as int,
            t.skip(acc@.len() as int),
        )) by {
            assert(t.take(0) =~= Seq::<char>::empty());
            assert(t.skip(0) =~= t);
            assert(acc@ =~= Seq::<char>::empty());
            assert(esc_str(acc@).len() == 0);
        }
    }
    loop
        invariant
            start <= pos <= s@.len(),
            forall|t: Seq<char>|
                str_body_at(s@, start as int, t) ==> {
                    &&& acc@.len() <= t.len()
                    &&& acc@ == t.take(acc@.len() as int)
                    &&& pos as int == start + esc_str(acc@).len()
                    &&& str_body_at(s@, pos as int, t.skip(acc@.len() as int))
                },
        decreases s@.len() - pos,
    {
        if pos == s.len() {
            proof {
                assert forall|t: Seq<char>| !str_body_at(s@, start as int, t) by {
                    if str_body_at(s@, start as int, t) {
                        let rest = t.skip(acc@.len() as int);
                        assert(str_body_at(s@, pos as int, rest));
                    }
                }
            }
            return None;
        }
        let c = s[pos];
        if c == '"' {
            proof {
                assert forall|t: Seq<char>|
                    str_body_at(s@, start as int, t) implies acc@ == t && pos as int == start
                    + esc_str(t).len() by {
                    let rest = t.skip(acc@.len() as int);
                    if rest.len() > 0 {
                        lemma_body_step(s@, pos as int, rest);
                        assert(s@[pos as int] == esc_char(rest[0])[0]);
                        assert(false);
                    }
                    assert(t.take(acc@.len() as int) =~= t);
                }
            }
            return Some((acc, pos + 1));
        } else if c == '\\' {
            if pos + 1 == s.len() {
                proof {
                    assert forall|t: Seq<char>| !str_body_at(s@, start as int, t) by {
                        if str_body_at(s@, start as int, t) {
                            let rest = t.skip(acc@.len() as int);
                            if rest.len() > 0 {
                                lemma_body_step(s@, pos as int, rest);
                                assert(esc_char(rest[0]).len() == 2);
                            } else {
                                assert(s@[pos as int] == '"');
                            }
                        }
                    }
                }
                return None;
            }
            let e = s[pos + 1];
            let d: char;
            if e == '"' {
                d = '"';
            } else if e == '\\' {
                d = '\\';
            } else if e == 'n' {
                d = '\n';
            } else if e == 'r' {
                d = '\r';
            } else if e == 't' {
                d = '\t';
            } else {
                proof {
                    assert forall|t: Seq<char>| !str_body_at(s@, start as int, t) by {
                        if str_body_at(s@, start as int, t) {
                            let rest = t.skip(acc@.len() as int);
                            if rest.len() > 0 {
                                lemma_body_step(s@, pos as int, rest);
                                assert(esc_char(rest[0]).len() == 2);
                                assert(s@[pos as int + 1] == esc_char(rest[0])[1]);
                            } else {
                                assert(s@[pos as int] == '"');
                            }
                        }
                    }
                }
                return None;
            }
            let ghost m = acc@.len() as int;
            acc.push(d);
            pos = pos + 2;
            proof {
                assert forall|t: Seq<char>|
                    str_body_at(s@, start as int, t) implies {
                    &&& acc@.len() <= t.len()
                    &&& acc@ == t.take(acc@.len() as int)
                    &&& pos as int == start + esc_str(acc@).len()
                    &&& str_body_at(s@, pos as int, t.skip(acc@.len() as int))
                } by {
                    let rest = t.skip(m);
                    if rest.len() == 0 {
                        assert(s@[pos - 2] == '"');
                        assert(false);
                    }
                    lemma_body_step(s@, pos - 2, rest);
                    assert(esc_char(rest[0]).len() == 2);
                    assert(rest[0] == d);
                    assert(t[m] == d);
                    assert(acc@ =~= t.take(m).push(d));
                    assert(acc@ =~= t.take(m + 1));
                    lemma_esc_concat(t.take(m), seq![d]);
                    assert(t.take(m + 1) =~= t.take(m) + seq![d]);
                    assert(seq![d].skip(1) =~= Seq::<char>::empty());
                    assert(esc_str(seq![d]) == esc_char(seq![d][0]) + esc_str(seq![d].skip(1)));
                    assert(esc_str(seq![d]) =~= esc_char(d));
                    assert(esc_str(t.take(m + 1)).len() == esc_str(t.take(m)).len() + 2);
                    assert(rest.skip(1) =~= t.skip(m + 1));
                }
            }
        } else {
            let ghost m = acc@.len() as int;
            acc.push(c);
            pos = pos + 1;
            proof {
                assert forall|t: Seq<char>|
                    str_body_at(s@, start as int, t) implies {
                    &&& acc@.len() <= t.len()
                    &&& acc@ == t.take(acc@.len() as int)
                    &&& pos as int == start + esc_str(acc@).len()
                    &&& str_body_at(s@, pos as int, t.skip(acc@.len() as int))
                } by {
                    let rest = t.skip(m);
                    if rest.len() == 0 {
                        assert(s@[pos - 1] == '"');
                        assert(false);
                    }
                    lemma_body_step(s@, pos - 1, rest);
                    assert(esc_char(rest[0]).len() == 1);
                    assert(rest[0] == c);
                    assert(t[m] == c);
                    assert(acc@ =~= t.take(m).push(c));
                    assert(acc@ =~= t.take(m + 1));
                    lemma_esc_concat(t.take(m), seq![c]);
                    assert(t.take(m + 1) =~= t.take(m) + seq![c]);
                    assert(seq![c].skip(1) =~= Seq::<char>::empty());
                    assert(esc_str(seq![c]) == esc_char(seq![c][0]) + esc_str(seq![c].skip(1)));
                    assert(esc_str(seq![c]) =~= esc_char(c));
                    assert(esc_str(t.take(m + 1)).len() == esc_str(t.take(m)).len() + 1);
                    assert(rest.skip(1) =~= t.skip(m + 1));
                }
            }
        }
    }
}

/// The serialization of each variant is nonempty and announces itself by
/// its first character; the classes do not overlap.
pub proof fn lemma_ser_first(v: SpecJson)
    ensures
        ser_json(v).len() >= 1,
        v is Null ==> ser_json(v) == seq!['n', 'u', 'l', 'l'],
        v is Bool ==> ser_json(v) == (if v->Bool_0 {
            seq!['t', 'r', 'u', 'e']
        } else {
            seq!['f', 'a', 'l', 's', 'e']
        }),
        v is Int ==> ser_json(v)[0] == '-' || is_digit(ser_json(v)[0]),
        v is Str ==> ser_json(v)[0] == '"',
        v is Arr ==> ser_json(v)[0] == '[',
        v is Obj ==> ser_json(v)[0] == '{',
        ser_json(v)[0] != ']' && ser_json(v)[0] != '}' && ser_json(v)[0] != ',' && ser_json(v)[0]
            != ':',
{
    match v {
        SpecJson::Int(n) => {
            if n < 0 {
                lemma_dec_digits(-n);
            } else {
                lemma_dec_digits(n);
                assert(ser_json(v)[0] == dec_seq(n)[0]);
            }
        }
        _ => {}
    }
}

/// The serialized form of `n` at `i`, followed by a boundary.
pub open spec fn int_at(s: Seq<char>, i: int, n: int) -> bool {
    &&& seg_at(s, i, ser_int(n))
    &&& at_boundary(s, i + ser_int(n).len())
}

/// Where the digits of a serialized integer sit, and what flanks them.
proof fn lemma_int_shape(s: Seq<char>, i: int, n: int)
    requires
        int_at(s, i, n),
    ensures
        n < 0 ==> s[i] == '-' && seg_at(s, i + 1, dec_seq(-n)) && at_boundary(
            s,
            i + 1 + dec_seq(-n).len(),
        ),
        n >= 0 ==> is_digit(s[i]) && seg_at(s, i, dec_seq(n)) && at_boundary(
            s,
            i + dec_seq(n).len(),
        ),
{
    if n < 0 {
        lemma_seg_split(s, i, seq!['-'], dec_seq(-n));
        lemma_seg_index(s, i, seq!['-'], 0);
    } else {
        lemma_dec_digits(n);
        lemma_seg_index(s, i, dec_seq(n), 0);
    }
}

/// Whether the character at `p` is a digit.
fn digit_at(s: &Vec<char>, p: usize) -> (b: bool)
    requires
        p < s@.len(),
    ensures
        b == is_digit(s@[p as int]),
{
    let c = s[p];
    c == '0' || c == '1' || c == '2' || c == '3' || c == '4' || c == '5' || c == '6' || c == '7'
        || c == '8' || c == '9'
}

/// The value of a digit character.
fn digit_value(c: char) -> (d: u64)
    requires
        is_digit(c),
    ensures
        d as int == digit_val(c),
        d < 10,
{
    if c == '0' {
        0
    } else if c == '1' {
        1
    } else if c == '2' {
        2
    } else if c == '3' {
        3
    } else if c == '4' {
        4
    } else if c == '5' {
        5
    } else if c == '6' {
        6
    } else if c == '7' {
        7
    } else if c == '8' {
        8
    } else {
        9
    }
}

/// Parses a decimal integer at `i`, complete for every serialized `i64`.
#[verifier::rlimit(80)]
fn parse_number(s: &Vec<char>, i: usize) -> (r: Option<(i64, usize)>)
    requires
        i < s@.len(),
    ensures
        (r matches Some(p) ==> i < p.1 <= s@.len()),
        forall|n: int|
            i64::MIN <= n <= i64::MAX && int_at(s@, i as int, n) ==> (r matches Some(p) && p.0
                as int == n && p.1 as int == i + ser_int(n).len()),
{
    let slen = s.len();
    let neg = s[i] == '-';
    let d0 = if neg {
        i + 1
    } else {
        i
    };
    proof {
        assert forall|n: int|
            i64::MIN <= n <= i64::MAX && int_at(s@, i as int, n) implies ((n < 0 <==> neg) && d0
            as int == i + (if n < 0 {
            1int
        } else {
            0int
        })) by {
            lemma_int_shape(s@, i as int, n);
            if n >= 0 {
                assert(!is_digit('-'));
            }
        }
    }
    if d0 == slen {
        proof {
            assert forall|n: int|
                !(i64::MIN <= n <= i64::MAX && int_at(s@, i as int, n)) by {
                if i64::MIN <= n <= i64::MAX && int_at(s@, i as int, n) {
                    lemma_int_shape(s@, i as int, n);
                    lemma_dec_digits(if n < 0 {
                        -n
                    } else {
                        n
                    });
                }
            }
        }
        return None;
    }
    if !digit_at(s, d0) {
        proof {
            assert forall|n: int|
                !(i64::MIN <= n <= i64::MAX && int_at(s@, i as int, n)) by {
                if i64::MIN <= n <= i64::MAX && int_at(s@, i as int, n) {
                    lemma_int_shape(s@, i as int, n);
                    let mm: int = if n < 0 {
                        -n
                    } else {
                        n
                    };
                    lemma_dec_digits(mm);
                    lemma_seg_index(s@, d0 as int, dec_seq(mm), 0);
                }
            }
        }
        return None;
    }
    let mut pos = d0;
    let mut acc: u64 = 0;
    while pos < s.len() && digit_at(s, pos)
        invariant
            i < s@.len(),
            d0 <= pos <= s@.len(),
            i <= d0 <= i + 1,
            forall|n: int|
                i64::MIN <= n <= i64::MAX && int_at(s@, i as int, n) ==> {
                    let mm: int = if n < 0 {
                        -n
                    } else {
                        n
                    };
                    &&& (n < 0 <==> neg)
                    &&& d0 as int == i + (if n < 0 {
                        1int
                    } else {
                        0int
                    })
                    &&& pos - d0 <= dec_seq(mm).len()
                    &&& acc as int == dec_val(dec_seq(mm).take(pos - d0))
                },
        decreases s@.len() - pos,
    {
        let dv = digit_value(s[pos]);
        let ghost pos0 = pos as int;
        let ghost acc0 = acc as int;
        proof {
            assert forall|n: int|
                i64::MIN <= n <= i64::MAX && int_at(s@, i as int, n) implies {
                let mm: int = if n < 0 {
                    -n
                } else {
                    n
                };
                &&& pos0 - d0 < dec_seq(mm).len()
                &&& acc0 * 10 + dv == dec_val(dec_seq(mm).take(pos0 - d0 + 1))
                &&& acc0 * 10 + dv <= 9223372036854775808
            } by {
                lemma_int_shape(s@, i as int, n);
                let mm: int = if n < 0 {
                    -n
                } else {
                    n
                };
                let dd = dec_seq(mm);
                lemma_dec_digits(mm);
                if pos0 - d0 == dd.len() {
                    assert(at_boundary(s@, d0 + dd.len()));
                    assert(false);
                }
                lemma_seg_index(s@, d0 as int, dd, pos0 - d0);
                assert(s@[pos0] == dd[pos0 - d0]);
                assert(dd.take(pos0 - d0 + 1).drop_last() =~= dd.take(pos0 - d0));
                assert(dd.take(pos0 - d0 + 1).last() == dd[pos0 - d0]);
                lemma_dec_val_take_le(dd, pos0 - d0 + 1);
                lemma_dec_val_of_dec_seq(mm);
                assert(dd.take(dd.len() as int) =~= dd);
                assert(dec_val(dd.take(pos0 - d0 + 1)) <= mm);
            }
        }
        if acc > 1844674407370955161u64 {
            return None;
        }
        let acc2 = acc * 10;
        if acc2 > u64::MAX - dv {
            return None;
        }
        acc = acc2 + dv;
        pos = pos + 1;
    }
    proof {
        assert forall|n: int|
            i64::MIN <= n <= i64::MAX && int_at(s@, i as int, n) implies {
            let mm: int = if n < 0 {
                -n
            } else {
                n
            };
            &&& acc as int == mm
            &&& pos as int == i + ser_int(n).len()
            &&& (n < 0 <==> neg)
        } by {
            lemma_int_shape(s@, i as int, n);
            let mm: int = if n < 0 {
                -n
            } else {
                n
            };
            let dd = dec_seq(mm);
            lemma_dec_digits(mm);
            if pos - d0 < dd.len() {
                lemma_seg_index(s@, d0 as int, dd, pos - d0);
                assert(is_digit(s@[pos as int]));
                assert(false);
            }
            assert(dd.take(dd.len() as int) =~= dd);
            lemma_dec_val_of_dec_seq(mm);
        }
    }
    if neg {
        if acc > 9223372036854775808u64 {
            return None;
        }
        let v: i64 = if acc == 9223372036854775808u64 {
            i64::MIN
        } else {
            -(acc as i64)
        };
        return Some((v, pos));
    } else {
        if acc > 9223372036854775807u64 {
            return None;
        }
        return Some((acc as i64, pos));
    }
}

/// What follows the first `m` elements inside a serialized array.
pub open spec fn items_rest(es: Seq<SpecJson>, m: int) -> Seq<char> {
    if m == es.len() {
        Seq::empty()
    } else {
        seq![','] + ser_items(es.skip(m))
    }
}

/// What follows the first `m` fields inside a serialized object.
pub open spec fn fields_rest(fs: Seq<(Seq<char>, SpecJson)>, m: int) -> Seq<char> {
    if m == fs.len() {
        Seq::empty()
    } else {
        seq![','] + ser_fields(fs.skip(m))
    }
}

/// A serialized element list splits after its first `m` elements.
pub proof fn lemma_items_split(es: Seq<SpecJson>, m: int)
    requires
        1 <= m <= es.len(),
    ensures
        ser_items(es) == ser_items(es.take(m)) + items_rest(es, m),
    decreases m,
{
    if m == 1 {
        if es.len() == 1 {
            assert(es.take(1) =~= es);
            assert(ser_items(es) =~= ser_items(es.take(1)) + items_rest(es, 1));
        } else {
            assert(es.take(1).len() == 1);
            assert(es.take(1)[0] == es[0]);
            assert(es.subrange(1, es.len() as int) =~= es.skip(1));
            assert(ser_items(es) =~= ser_items(es.take(1)) + items_rest(es, 1));
        }
    } else {
        lemma_items_split(es.skip(1), m - 1);
        assert(es.skip(1).take(m - 1) =~= es.take(m).skip(1));
        assert(es.skip(1).skip(m - 1) =~= es.skip(m));
        assert(es.subrange(1, es.len() as int) =~= es.skip(1));
        assert(es.take(m).len() == m);
        assert(es.take(m)[0] == es[0]);
        assert(es.take(m).subrange(1, m) =~= es.take(m).skip(1));
        if m == es.len() {
            assert(items_rest(es.skip(1), m - 1) == Seq::<char>::empty());
        } else {
            assert(items_rest(es.skip(1), m - 1) =~= items_rest(es, m));
        }
        assert(ser_items(es) =~= ser_items(es.take(m)) + items_rest(es, m));
    }
}

/// Appending the next element extends the serialized list by a comma and
/// that element.
pub proof fn lemma_items_push(es: Seq<SpecJson>, m: int)
    requires
        1 <= m < es.len(),
    ensures
        ser_items(es.take(m + 1)) == ser_items(es.take(m)) + seq![','] + ser_json(es[m]),
{
    let esp = es.take(m + 1);
    lemma_items_split(esp, m);
    assert(esp.take(m) =~= es.take(m));
    assert(esp.skip(m) =~= seq![es[m]]);
    assert(ser_items(seq![es[m]]) == ser_json(es[m]));
    assert(ser_items(es.take(m + 1)) =~= ser_items(es.take(m)) + seq![','] + ser_json(es[m]));
}

/// A serialized field list splits after its first `m` fields.
pub proof fn lemma_fields_split(fs: Seq<(Seq<char>, SpecJson)>, m: int)
    requires
        1 <= m <= fs.len(),
    ensures
        ser_fields(fs) == ser_fields(fs.take(m)) + fields_rest(fs, m),
    decreases m,
{
    if m == 1 {
        if fs.len() == 1 {
            assert(fs.take(1) =~= fs);
            assert(ser_fields(fs) =~= ser_fields(fs.take(1)) + fields_rest(fs, 1));
        } else {
            assert(fs.take(1).len() == 1);
            assert(fs.take(1)[0] == fs[0]);
            assert(fs.subrange(1, fs.len() as int) =~= fs.skip(1));
            assert(ser_fields(fs) =~= ser_fields(fs.take(1)) + fields_rest(fs, 1));
        }
    } else {
        lemma_fields_split(fs.skip(1), m - 1);
        assert(fs.skip(1).take(m - 1) =~= fs.take(m).skip(1));
        assert(fs.skip(1).skip(m - 1) =~= fs.skip(m));
        assert(fs.subrange(1, fs.len() as int) =~= fs.skip(1));
        assert(fs.take(m).len() == m);
        assert(fs.take(m)[0] == fs[0]);
        assert(fs.take(m).subrange(1, m) =~= fs.take(m).skip(1));
        if m == fs.len() {
            assert(fields_rest(fs.skip(1), m - 1) == Seq::<char>::empty());
        } else {
            assert(fields_rest(fs.skip(1), m - 1) =~= fields_rest(fs, m));
        }
        assert(ser_fields(fs) =~= ser_fields(fs.take(m)) + fields_rest(fs, m));
    }
}

/// Appending the next field extends the serialized list by a comma and that
/// field.
pub proof fn lemma_fields_push(fs: Seq<(Seq<char>, SpecJson)>, m: int)
    requires
        1 <= m < fs.len(),
    ensures
        ser_fields(fs.take(m + 1)) == ser_fields(fs.take(m)) + seq![','] + ser_field(fs[m]),
{
    let fsp = fs.take(m + 1);
    lemma_fields_split(fsp, m);
    assert(fsp.take(m) =~= fs.take(m));
    assert(fsp.skip(m) =~= seq![fs[m]]);
    assert(ser_fields(seq![fs[m]]) == ser_field(fs[m]));
    assert(ser_fields(fs.take(m + 1)) =~= ser_fields(fs.take(m)) + seq![','] + ser_field(fs[m]));
}

/// One serialized object field sits at `q`, followed by a boundary.
pub open spec fn field_at(s: Seq<char>, q: int, f: (Seq<char>, SpecJson)) -> bool {
    &&& wf_json(f.1)
    &&& seg_at(s, q, ser_field(f))
    &&& at_boundary(s, q + ser_field(f).len())
}

/// Decomposes a field match into its key literal, colon, and value.
proof fn lemma_field_shape(s: Seq<char>, q: int, f: (Seq<char>, SpecJson))
    requires
        field_at(s, q, f),
    ensures
        s[q] == '"',
        str_body_at(s, q + 1, f.0),
        s[q + 2 + esc_str(f.0).len()] == ':',
        complete_at(s, q + 3 + esc_str(f.0).len(), f.1),
        ser_field(f).len() == 3 + esc_str(f.0).len() + ser_json(f.1).len(),
{
    let key = esc_str(f.0);
    assert(ser_field(f) == ((seq!['"'] + key) + seq!['"', ':']) + ser_json(f.1));
    lemma_seg_split(s, q, (seq!['"'] + key) + seq!['"', ':'], ser_json(f.1));
    lemma_seg_split(s, q, seq!['"'] + key, seq!['"', ':']);
    lemma_seg_split(s, q, seq!['"'], key);
    lemma_seg_index(s, q, seq!['"'], 0);
    lemma_seg_index(s, q + 1 + key.len(), seq!['"', ':'], 0);
    lemma_seg_index(s, q + 1 + key.len(), seq!['"', ':'], 1);
}

/// Parses one `"key":value` field, complete for every serialized field.
#[verifier::rlimit(80)]
fn parse_field(s: &Vec<char>, q: usize) -> (r: Option<((String, JsonValue), usize)>)
    requires
        q <= s@.len(),
    ensures
        (r matches Some(p) ==> q < p.1 <= s@.len()),
        forall|f: (Seq<char>, SpecJson)|
            field_at(s@, q as int, f) ==> (r matches Some(p) && p.0.0@ == f.0 && p.0.1@ == f.1
                && p.1 as int == q + ser_field(f).len()),
    decreases s@.len() - q,
{
    let slen = s.len();
    if q == slen {
        proof {
            assert forall|f: (Seq<char>, SpecJson)| !field_at(s@, q as int, f) by {
                if field_at(s@, q as int, f) {
                    lemma_field_shape(s@, q as int, f);
                }
            }
        }
        return None;
    }
    if s[q] != '"' {
        proof {
            assert forall|f: (Seq<char>, SpecJson)| !field_at(s@, q as int, f) by {
                if field_at(s@, q as int, f) {
                    lemma_field_shape(s@, q as int, f);
                }
            }
        }
        return None;
    }
    proof {
        assert forall|f: (Seq<char>, SpecJson)|
            field_at(s@, q as int, f) implies str_body_at(s@, q + 1, f.0) by {
            lemma_field_shape(s@, q as int, f);
        }
    }
    match scan_string(s, q + 1) {
        None => {
            proof {
                assert forall|f: (Seq<char>, SpecJson)| !field_at(s@, q as int, f) by {
                    if field_at(s@, q as int, f) {
                        lemma_field_shape(s@, q as int, f);
                    }
                }
            }
            None
        }
        Some((key, j2)) => {
            if j2 == slen || s[j2] != ':' {
                proof {
                    assert forall|f: (Seq<char>, SpecJson)| !field_at(s@, q as int, f) by {
                        if field_at(s@, q as int, f) {
                            lemma_field_shape(s@, q as int, f);
                        }
                    }
                }
                return None;
            }
            proof {
                assert forall|f: (Seq<char>, SpecJson)|
                    field_at(s@, q as int, f) implies complete_at(s@, j2 + 1, f.1) && key@
                    == f.0 by {
                    lemma_field_shape(s@, q as int, f);
                }
            }
            match parse_value(s, j2 + 1) {
                None => {
                    proof {
                        assert forall|f: (Seq<char>, SpecJson)| !field_at(s@, q as int, f) by {
                            if field_at(s@, q as int, f) {
                                lemma_field_shape(s@, q as int, f);
                            }
                        }
                    }
                    None
                }
                Some((w, j3)) => {
                    let ghost keyview = key@;
                    let keystr = crate::text::string_of(key);
                    proof {
                        assert forall|f: (Seq<char>, SpecJson)|
                            field_at(s@, q as int, f) implies (keystr@ == f.0 && w@ == f.1 && j3
                            as int == q + ser_field(f).len()) by {
                            lemma_field_shape(s@, q as int, f);
                        }
                    }
                    Some(((keystr, w), j3))
                }
            }
        }
    }
}

/// Parses one JSON value at `i`: complete for the serialization of every
/// well-formed document, and consuming exactly its text.
#[verifier::rlimit(100)]
fn parse_value(s: &Vec<char>, i: usize) -> (r: Option<(JsonValue, usize)>)
    requires
        i <= s@.len(),
    ensures
        (r matches Some(p) ==> i < p.1 <= s@.len()),
        forall|jv: SpecJson|
            complete_at(s@, i as int, jv) ==> (r matches Some(p) && p.0@ == jv && p.1 as int == i
                + ser_json(jv).len()),
    decreases s@.len() - i,
{
    let slen = s.len();
    if i == slen {
        proof {
            assert forall|jv: SpecJson| !complete_at(s@, i as int, jv) by {
                if complete_at(s@, i as int, jv) {
                    lemma_ser_first(jv);
                }
            }
        }
        return None;
    }
    let c = s[i];
    proof {
        assert forall|jv: SpecJson|
            complete_at(s@, i as int, jv) implies s@[i as int] == ser_json(jv)[0] by {
            lemma_ser_first(jv);
            lemma_seg_index(s@, i as int, ser_json(jv), 0);
        }
    }
    if c == 'n' {
        if slen - i >= 4 && s[i + 1] == 'u' && s[i + 2] == 'l' && s[i + 3] == 'l' {
            proof {
                assert forall|jv: SpecJson|
                    complete_at(s@, i as int, jv) implies jv == SpecJson::Null && ser_json(
                    jv,
                ).len() == 4 by {
                    lemma_ser_first(jv);
                }
            }
            return Some((JsonValue::Null, i + 4));
        } else {
            proof {
                assert forall|jv: SpecJson| !complete_at(s@, i as int, jv) by {
                    if complete_at(s@, i as int, jv) {
                        lemma_ser_first(jv);
                        lemma_seg_index(s@, i as int, ser_json(jv), 1);
                        lemma_seg_index(s@, i as int, ser_json(jv), 2);
                        lemma_seg_index(s@, i as int, ser_json(jv), 3);
                    }
                }
            }
            return None;
        }
    } else if c == 't' {
        if slen - i >= 4 && s[i + 1] == 'r' && s[i + 2] == 'u' && s[i + 3] == 'e' {
            proof {
                assert forall|jv: SpecJson|
                    complete_at(s@, i as int, jv) implies jv == SpecJson::Bool(true) && ser_json(
                    jv,
                ).len() == 4 by {
                    lemma_ser_first(jv);
                }
            }
            return Some((JsonValue::Bool(true), i + 4));
        } else {
            proof {
                assert forall|jv: SpecJson| !complete_at(s@, i as int, jv) by {
                    if complete_at(s@, i as int, jv) {
                        lemma_ser_first(jv);
                        lemma_seg_index(s@, i as int, ser_json(jv), 1);
                        lemma_seg_index(s@, i as int, ser_json(jv), 2);
                        lemma_seg_index(s@, i as int, ser_json(jv), 3);
                    }
                }
            }
            return None;
        }
    } else if c == 'f' {
        if slen - i >= 5 && s[i + 1] == 'a' && s[i + 2] == 'l' && s[i + 3] == 's' && s[i + 4]
            == 'e' {
            proof {
                assert forall|jv: SpecJson|
                    complete_at(s@, i as int, jv) implies jv == SpecJson::Bool(false) && ser_json(
                    jv,
                ).len() == 5 by {
                    lemma_ser_first(jv);
                }
            }
            return Some((JsonValue::Bool(false), i + 5));
        } else {
            proof {
                assert forall|jv: SpecJson| !complete_at(s@, i as int, jv) by {
                    if complete_at(s@, i as int, jv) {
                        lemma_ser_first(jv);
                        lemma_seg_index(s@, i as int, ser_json(jv), 1);
                        lemma_seg_index(s@, i as int, ser_json(jv), 2);
                        lemma_seg_index(s@, i as int, ser_json(jv), 3);
                        lemma_seg_index(s@, i as int, ser_json(jv), 4);
                    }
                }
            }
            return None;
        }
    } else if c == '"' {
        proof {
            assert forall|jv: SpecJson|
                complete_at(s@, i as int, jv) implies (jv is Str && str_body_at(
                s@,
                i + 1,
                jv->Str_0,
            ) && ser_json(jv).len() == esc_str(jv->Str_0).len() + 2) by {
                lemma_ser_first(jv);
                let t = jv->Str_0;
                assert(ser_json(jv) == (seq!['"'] + esc_str(t)) + seq!['"']);
                lemma_seg_split(s@, i as int, seq!['"'] + esc_str(t), seq!['"']);
                lemma_seg_split(s@, i as int, seq!['"'], esc_str(t));
                lemma_seg_index(s@, i + 1 + esc_str(t).len(), seq!['"'], 0);
            }
        }
        match scan_string(s, i + 1) {
            None => {
                proof {
                    assert forall|jv: SpecJson| !complete_at(s@, i as int, jv) by {}
                }
                None
            }
            Some((u, j)) => {
                let ghost uview = u@;
                let w = JsonValue::Str(crate::text::string_of(u));
                proof {
                    assert forall|jv: SpecJson|
                        complete_at(s@, i as int, jv) implies (w@ == jv && j as int == i
                        + ser_json(jv).len()) by {
                        assert(uview == jv->Str_0);
                    }
                }
                Some((w, j))
            }
        }
    } else if c == '[' {
        let pos0 = i + 1;
        if pos0 == slen {
            proof {
                assert forall|jv: SpecJson| !complete_at(s@, i as int, jv) by {
                    if complete_at(s@, i as int, jv) {
                        lemma_ser_first(jv);
                    }
                }
            }
            return None;
        }
        if s[pos0] == ']' {
            proof {
                assert forall|jv: SpecJson|
                    complete_at(s@, i as int, jv) implies (jv == SpecJson::Arr(
                    Seq::<SpecJson>::empty(),
                ) && ser_json(jv).len() == 2) by {
                    lemma_ser_first(jv);
                    let es = jv->Arr_0;
                    assert(ser_json(jv) == (seq!['['] + ser_items(es)) + seq![']']);
                    assert(ser_json(jv) =~= seq!['['] + (ser_items(es) + seq![']']));
                    lemma_seg_split(s@, i as int, seq!['['], ser_items(es) + seq![']']);
                    if es.len() > 0 {
                        lemma_ser_first(es[0]);
                        assert(ser_items(es)[0] == ser_json(es[0])[0]);
                        lemma_seg_index(s@, i + 1, ser_items(es) + seq![']'], 0);
                        assert(false);
                    }
                    assert(es =~= Seq::<SpecJson>::empty());
                }
                assert(deep_seq(Seq::<JsonValue>::empty()) =~= Seq::<SpecJson>::empty());
            }
            return Some((JsonValue::Arr(Vec::new()), pos0 + 1));
        }
        proof {
            assert forall|jv: SpecJson|
                complete_at(s@, i as int, jv) implies (jv is Arr && jv->Arr_0.len() > 0
                && complete_at(s@, pos0 as int, jv->Arr_0[0])) by {
                lemma_ser_first(jv);
                let es = jv->Arr_0;
                assert(ser_json(jv) == (seq!['['] + ser_items(es)) + seq![']']);
                lemma_seg_split(s@, i as int, seq!['['] + ser_items(es), seq![']']);
                lemma_seg_split(s@, i as int, seq!['['], ser_items(es));
                lemma_seg_index(s@, i + 1 + ser_items(es).len(), seq![']'], 0);
                if es.len() == 0 {
                    assert(s@[pos0 as int] == ']');
                    assert(false);
                }
                lemma_items_decomp_first(s@, pos0 as int, es, i + 1 + ser_items(es).len());
            }
        }
        match parse_value(s, pos0) {
            None => {
                proof {
                    assert forall|jv: SpecJson| !complete_at(s@, i as int, jv) by {}
                }
                None
            }
            Some((w0, p1)) => {
                let mut elems: Vec<JsonValue> = Vec::new();
                elems.push(w0);
                let mut pos = p1;
                proof {
                    assert forall|jv: SpecJson|
                        complete_at(s@, i as int, jv) implies (1 <= jv->Arr_0.len() && deep_seq(
                        elems@,
                    ) == jv->Arr_0.take(1) && pos as int == i + 1 + ser_items(
                        jv->Arr_0.take(1),
                    ).len()) by {
                        let es = jv->Arr_0;
                        assert(w0@ == es[0]);
                        assert(deep_seq(elems@) =~= es.take(1));
                        assert(es.take(1) =~= seq![es[0]]);
                        assert(ser_items(seq![es[0]]) == ser_json(es[0]));
                    }
                }
                loop
                    invariant
                        i < pos <= s@.len(),
                        s@.len() == slen,
                        1 <= elems@.len(),
                        forall|jv: SpecJson|
                            complete_at(s@, i as int, jv) ==> {
                                let es = jv->Arr_0;
                                let m = elems@.len() as int;
                                &&& jv is Arr
                                &&& m <= es.len()
                                &&& deep_seq(elems@) == es.take(m)
                                &&& pos as int == i + 1 + ser_items(es.take(m)).len()
                            },
                    decreases s@.len() - pos,
                {
                    let ghost m = elems@.len() as int;
                    if pos == slen {
                        proof {
                            assert forall|jv: SpecJson| !complete_at(s@, i as int, jv) by {
                                if complete_at(s@, i as int, jv) {
                                    lemma_arr_loop_shape(s@, i as int, jv->Arr_0, m);
                                }
                            }
                        }
                        return None;
                    }
                    let c2 = s[pos];
                    if c2 == ']' {
                        proof {
                            assert forall|jv: SpecJson|
                                complete_at(s@, i as int, jv) implies (jv == SpecJson::Arr(
                                deep_seq(elems@),
                            ) && pos + 1 == i + ser_json(jv).len()) by {
                                let es = jv->Arr_0;
                                lemma_arr_loop_shape(s@, i as int, es, m);
                                if m < es.len() {
                                    assert(s@[pos as int] == ',');
                                    assert(false);
                                }
                                assert(es.take(m) =~= es);
                            }
                        }
                        return Some((JsonValue::Arr(elems), pos + 1));
                    }
                    if c2 != ',' {
                        proof {
                            assert forall|jv: SpecJson| !complete_at(s@, i as int, jv) by {
                                if complete_at(s@, i as int, jv) {
                                    lemma_arr_loop_shape(s@, i as int, jv->Arr_0, m);
                                }
                            }
                        }
                        return None;
                    }
                    proof {
                        assert forall|jv: SpecJson|
                            complete_at(s@, i as int, jv) implies (m < jv->Arr_0.len()
                            && complete_at(s@, pos + 1, jv->Arr_0[m])) by {
                            let es = jv->Arr_0;
                            lemma_arr_loop_shape(s@, i as int, es, m);
                            if m == es.len() {
                                assert(s@[pos as int] == ']');
                                assert(false);
                            }
                        }
                    }
                    match parse_value(s, pos + 1) {
                        None => {
                            proof {
                                assert forall|jv: SpecJson| !complete_at(s@, i as int, jv) by {}
                            }
                            return None;
                        }
                        Some((w2, p2)) => {
                            elems.push(w2);
                            pos = p2;
                            proof {
                                assert forall|jv: SpecJson|
                                    complete_at(s@, i as int, jv) implies {
                                    let es = jv->Arr_0;
                                    let m2 = elems@.len() as int;
                                    &&& m2 <= es.len()
                                    &&& deep_seq(elems@) == es.take(m2)
                                    &&& pos as int == i + 1 + ser_items(es.take(m2)).len()
                                } by {
                                    let es = jv->Arr_0;
                                    assert(w2@ == es[m]);
                                    lemma_items_push(es, m);
                                    assert(deep_seq(elems@) =~= es.take(m + 1));
                                }
                            }
                        }
                    }
                }
            }
        }
    } else if c == '{' {
        let pos0 = i + 1;
        if pos0 == slen {
            proof {
                assert forall|jv: SpecJson| !complete_at(s@, i as int, jv) by {
                    if complete_at(s@, i as int, jv) {
                        lemma_ser_first(jv);
                    }
                }
            }
            return None;
        }
        if s[pos0] == '}' {
            proof {
                assert forall|jv: SpecJson|
                    complete_at(s@, i as int, jv) implies (jv == SpecJson::Obj(
                    Seq::<(Seq<char>, SpecJson)>::empty(),
                ) && ser_json(jv).len() == 2) by {
                    lemma_ser_first(jv);
                    let fs = jv->Obj_0;
                    assert(ser_json(jv) == (seq!['{'] + ser_fields(fs)) + seq!['}']);
                    assert(ser_json(jv) =~= seq!['{'] + (ser_fields(fs) + seq!['}']));
                    lemma_seg_split(s@, i as int, seq!['{'], ser_fields(fs) + seq!['}']);
                    if fs.len() > 0 {
                        assert(ser_field(fs[0])[0] == '"');
                        assert(ser_fields(fs)[0] == ser_field(fs[0])[0]);
                        lemma_seg_index(s@, i + 1, ser_fields(fs) + seq!['}'], 0);
                        assert(false);
                    }
                    assert(fs =~= Seq::<(Seq<char>, SpecJson)>::empty());
                }
                assert(deep_fields(Seq::<(String, JsonValue)>::empty()) =~= Seq::<
                    (Seq<char>, SpecJson),
                >::empty());
            }
            return Some((JsonValue::Obj(Vec::new()), pos0 + 1));
        }
        proof {
            assert forall|jv: SpecJson|
                complete_at(s@, i as int, jv) implies (jv is Obj && jv->Obj_0.len() > 0 && field_at(
                s@,
                pos0 as int,
                jv->Obj_0[0],
            )) by {
                lemma_ser_first(jv);
                let fs = jv->Obj_0;
                assert(ser_json(jv) == (seq!['{'] + ser_fields(fs)) + seq!['}']);
                lemma_seg_split(s@, i as int, seq!['{'] + ser_fields(fs), seq!['}']);
                lemma_seg_split(s@, i as int, seq!['{'], ser_fields(fs));
                lemma_seg_index(s@, i + 1 + ser_fields(fs).len(), seq!['}'], 0);
                if fs.len() == 0 {
                    assert(s@[pos0 as int] == '}');
                    assert(false);
                }
                lemma_fields_decomp_first(s@, pos0 as int, fs, i + 1 + ser_fields(fs).len());
            }
        }
        match parse_field(s, pos0) {
            None => {
                proof {
                    assert forall|jv: SpecJson| !complete_at(s@, i as int, jv) by {}
                }
                None
            }
            Some((f0, p1)) => {
                let mut fields: Vec<(String, JsonValue)> = Vec::new();
                fields.push(f0);
                let mut pos = p1;
                proof {
                    assert forall|jv: SpecJson|
                        complete_at(s@, i as int, jv) implies (1 <= jv->Obj_0.len() && deep_fields(
                        fields@,
                    ) == jv->Obj_0.take(1) && pos as int == i + 1 + ser_fields(
                        jv->Obj_0.take(1),
                    ).len()) by {
                        let fs = jv->Obj_0;
                        assert(deep_fields(fields@) =~= fs.take(1));
                        assert(fs.take(1) =~= seq![fs[0]]);
                        assert(ser_fields(seq![fs[0]]) == ser_field(fs[0]));
                    }
                }
                loop
                    invariant
                        i < pos <= s@.len(),
                        s@.len() == slen,
                        1 <= fields@.len(),
                        forall|jv: SpecJson|
                            complete_at(s@, i as int, jv) ==> {
                                let fs = jv->Obj_0;
                                let m = fields@.len() as int;
                                &&& jv is Obj
                                &&& m <= fs.len()
                                &&& deep_fields(fields@) == fs.take(m)
                                &&& pos as int == i + 1 + ser_fields(fs.take(m)).len()
                            },
                    decreases s@.len() - pos,
                {
                    let ghost m = fields@.len() as int;
                    if pos == slen {
                        proof {
                            assert forall|jv: SpecJson| !complete_at(s@, i as int, jv) by {
                                if complete_at(s@, i as int, jv) {
                                    lemma_obj_loop_shape(s@, i as int, jv->Obj_0, m);
                                }
                            }
                        }
                        return None;
                    }
                    let c2 = s[pos];
                    if c2 == '}' {
                        proof {
                            assert forall|jv: SpecJson|
                                complete_at(s@, i as int, jv) implies (jv == SpecJson::Obj(
                                deep_fields(fields@),
                            ) && pos + 1 == i + ser_json(jv).len()) by {
                                let fs = jv->Obj_0;
                                lemma_obj_loop_shape(s@, i as int, fs, m);
                                if m < fs.len() {
                                    assert(s@[pos as int] == ',');
                                    assert(false);
                                }
                                assert(fs.take(m) =~= fs);
                            }
                        }
                        return Some((JsonValue::Obj(fields), pos + 1));
                    }
                    if c2 != ',' {
                        proof {
                            assert forall|jv: SpecJson| !complete_at(s@, i as int, jv) by {
                                if complete_at(s@, i as int, jv) {
                                    lemma_obj_loop_shape(s@, i as int, jv->Obj_0, m);
                                }
                            }
                        }
                        return None;
                    }
                    proof {
                        assert forall|jv: SpecJson|
                            complete_at(s@, i as int, jv) implies (m < jv->Obj_0.len() && field_at(
                            s@,
                            pos + 1,
                            jv->Obj_0[m],
                        )) by {
                            let fs = jv->Obj_0;
                            lemma_obj_loop_shape(s@, i as int, fs, m);
                            if m == fs.len() {
                                assert(s@[pos as int] == '}');
                                assert(false);
                            }
                        }
                    }
                    match parse_field(s, pos + 1) {
                        None => {
                            proof {
                                assert forall|jv: SpecJson| !complete_at(s@, i as int, jv) by {}
                            }
                            return None;
                        }
                        Some((f2, p2)) => {
                            let ghost f2k = f2.0@;
                            let ghost f2v = f2.1@;
                            fields.push(f2);
                            pos = p2;
                            proof {
                                assert forall|jv: SpecJson|
                                    complete_at(s@, i as int, jv) implies {
                                    let fs = jv->Obj_0;
                                    let m2 = fields@.len() as int;
                                    &&& m2 <= fs.len()
                                    &&& deep_fields(fields@) == fs.take(m2)
                                    &&& pos as int == i + 1 + ser_fields(fs.take(m2)).len()
                                } by {
                                    let fs = jv->Obj_0;
                                    assert(f2k == fs[m].0 && f2v == fs[m].1);
                                    lemma_fields_push(fs, m);
                                    assert(deep_fields(fields@) =~= fs.take(m + 1));
                                }
                            }
                        }
                    }
                }
            }
        }
    } else if c == '-' || digit_at(s, i) {
        proof {
            assert forall|jv: SpecJson|
                complete_at(s@, i as int, jv) implies (jv is Int && i64::MIN <= jv->Int_0
                <= i64::MAX && int_at(s@, i as int, jv->Int_0)) by {
                lemma_ser_first(jv);
            }
        }
        match parse_number(s, i) {
            None => {
                proof {
                    assert forall|jv: SpecJson| !complete_at(s@, i as int, jv) by {}
                }
                None
            }
            Some((m0, j)) => {
                proof {
                    assert forall|jv: SpecJson|
                        complete_at(s@, i as int, jv) implies (JsonValue::Int(m0)@ == jv && j as int
                        == i + ser_json(jv).len()) by {
                        assert(m0 as int == jv->Int_0);
                    }
                }
                Some((JsonValue::Int(m0), j))
            }
        }
    } else {
        proof {
            assert forall|jv: SpecJson| !complete_at(s@, i as int, jv) by {
                if complete_at(s@, i as int, jv) {
                    lemma_ser_first(jv);
                }
            }
        }
        None
    }
}

/// Inside a serialized array, after `m` elements the cursor sits on a comma
/// or on the closing bracket, and a comma is followed by a complete element.
proof fn lemma_arr_loop_shape(s: Seq<char>, i: int, es: Seq<SpecJson>, m: int)
    requires
        complete_at(s, i, SpecJson::Arr(es)),
        1 <= m <= es.len(),
    ensures
        i + 1 + ser_items(es.take(m)).len() + items_rest(es, m).len() + 1 == i + ser_json(
            SpecJson::Arr(es),
        ).len(),
        m == es.len() ==> s[i + 1 + ser_items(es.take(m)).len()] == ']',
        m < es.len() ==> s[i + 1 + ser_items(es.take(m)).len()] == ',' && complete_at(
            s,
            i + 2 + ser_items(es.take(m)).len(),
            es[m],
        ),
        i + 1 + ser_items(es.take(m)).len() < s.len(),
{
    let jv = SpecJson::Arr(es);
    assert(ser_json(jv) == (seq!['['] + ser_items(es)) + seq![']']);
    lemma_seg_split(s, i, seq!['['] + ser_items(es), seq![']']);
    lemma_seg_split(s, i, seq!['['], ser_items(es));
    lemma_seg_index(s, i + 1 + ser_items(es).len(), seq![']'], 0);
    lemma_items_split(es, m);
    let pre = ser_items(es.take(m));
    lemma_seg_split(s, i + 1, pre, items_rest(es, m));
    if m == es.len() {
        assert(items_rest(es, m).len() == 0);
    } else {
        let tail = es.skip(m);
        lemma_seg_split(s, i + 1 + pre.len(), seq![','], ser_items(tail));
        lemma_seg_index(s, i + 1 + pre.len(), seq![','], 0);
        assert(tail[0] == es[m]);
        lemma_items_decomp_first(s, i + 2 + pre.len(), tail, i + 1 + ser_items(es).len());
    }
}

/// Inside a serialized object, after `m` fields the cursor sits on a comma
/// or on the closing brace, and a comma is followed by a complete field.
proof fn lemma_obj_loop_shape(s: Seq<char>, i: int, fs: Seq<(Seq<char>, SpecJson)>, m: int)
    requires
        complete_at(s, i, SpecJson::Obj(fs)),
        1 <= m <= fs.len(),
    ensures
        i + 1 + ser_fields(fs.take(m)).len() + fields_rest(fs, m).len() + 1 == i + ser_json(
            SpecJson::Obj(fs),
        ).len(),
        m == fs.len() ==> s[i + 1 + ser_fields(fs.take(m)).len()] == '}',
        m < fs.len() ==> s[i + 1 + ser_fields(fs.take(m)).len()] == ',' && field_at(
            s,
            i + 2 + ser_fields(fs.take(m)).len(),
            fs[m],
        ),
        i + 1 + ser_fields(fs.take(m)).len() < s.len(),
{
    let jv = SpecJson::Obj(fs);
    assert(ser_json(jv) == (seq!['{'] + ser_fields(fs)) + seq!['}']);
    lemma_seg_split(s, i, seq!['{'] + ser_fields(fs), seq!['}']);
    lemma_seg_split(s, i, seq!['{'], ser_fields(fs));
    lemma_seg_index(s, i + 1 + ser_fields(fs).len(), seq!['}'], 0);
    lemma_fields_split(fs, m);
    let pre = ser_fields(fs.take(m));
    lemma_seg_split(s, i + 1, pre, fields_rest(fs, m));
    if m == fs.len() {
        assert(fields_rest(fs, m).len() == 0);
    } else {
        let tail = fs.skip(m);
        lemma_seg_split(s, i + 1 + pre.len(), seq![','], ser_fields(tail));
        lemma_seg_index(s, i + 1 + pre.len(), seq![','], 0);
        assert(tail[0] == fs[m]);
        lemma_fields_decomp_first(s, i + 2 + pre.len(), tail, i + 1 + ser_fields(fs).len());
    }
}

/// The first element of a nonempty serialized element list is a complete
/// value: its text sits first, and a comma or the array's closing bracket
/// bounds it.
proof fn lemma_items_decomp_first(s: Seq<char>, p: int, es: Seq<SpecJson>, closepos: int)
    requires
        es.len() > 0,
        forall|q: int| 0 <= q < es.len() ==> wf_json(#[trigger] es[q]),
        seg_at(s, p, ser_items(es)),
        closepos == p + ser_items(es).len(),
        closepos < s.len(),
        s[closepos] == ']' || s[closepos] == '}',
    ensures
        complete_at(s, p, es[0]),
{
    if es.len() == 1 {
        assert(ser_items(es) == ser_json(es[0]));
    } else {
        assert(es.subrange(1, es.len() as int) =~= es.skip(1));
        assert(ser_items(es) == (ser_json(es[0]) + seq![',']) + ser_items(es.skip(1)));
        lemma_seg_split(s, p, ser_json(es[0]) + seq![','], ser_items(es.skip(1)));
        lemma_seg_split(s, p, ser_json(es[0]), seq![',']);
        lemma_seg_index(s, p + ser_json(es[0]).len(), seq![','], 0);
    }
}

/// The first field of a nonempty serialized field list is a complete field:
/// its text sits first, and a comma or the object's closing brace bounds it.
proof fn lemma_fields_decomp_first(
    s: Seq<char>,
    p: int,
    fs: Seq<(Seq<char>, SpecJson)>,
    closepos: int,
)
    requires
        fs.len() > 0,
        forall|q: int| 0 <= q < fs.len() ==> wf_json(#[trigger] fs[q].1),
        seg_at(s, p, ser_fields(fs)),
        closepos == p + ser_fields(fs).len(),
        closepos < s.len(),
        s[closepos] == ']' || s[closepos] == '}',
    ensures
        field_at(s, p, fs[0]),
{
    if fs.len() == 1 {
        assert(ser_fields(fs) == ser_field(fs[0]));
    } else {
        assert(fs.subrange(1, fs.len() as int) =~= fs.skip(1));
        assert(ser_fields(fs) == (ser_field(fs[0]) + seq![',']) + ser_fields(fs.skip(1)));
        lemma_seg_split(s, p, ser_field(fs[0]) + seq![','], ser_fields(fs.skip(1)));
        lemma_seg_split(s, p, ser_field(fs[0]), seq![',']);
        lemma_seg_index(s, p + ser_field(fs[0]).len(), seq![','], 0);
    }
}

/// Parses a whole JSON document: the entire input must be one value.
///
/// The contract is the round trip: an input that is exactly the
/// serialization of a well-formed document parses back to that document.
pub fn parse_json(s: &Vec<char>) -> (r: Option<JsonValue>)
    ensures
        forall|jv: SpecJson|
            wf_json(jv) && s@ == ser_json(jv) ==> (r matches Some(w) && w@ == jv),
{
    proof {
        assert forall|jv: SpecJson|
            wf_json(jv) && s@ == ser_json(jv) implies complete_at(s@, 0, jv) by {
            assert(s@.subrange(0, ser_json(jv).len() as int) =~= ser_json(jv));
        }
    }
    match parse_value(s, 0) {
        None => None,
        Some((w, j)) => {
            if j == s.len() {
                Some(w)
            } else {
                None
            }
        }
    }
}

} // verus!
