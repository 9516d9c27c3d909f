use vstd::prelude::*;
use crate::json::{Json, ser, ser_items, ser_members, esc, esc_char, dseq, int_chars, digit_char,
    dval, is_digit};
use crate::parse::{parse_text, parse_value, parse_items, parse_members, parse_string_body,
    skip_ws, end_digits, digits_val, is_ws};

verus! {

/// A document every part of which the codec can carry: every number fits the
/// machine integer the executable documents hold.
pub open spec fn wf_json(v: Json) -> bool
    decreases v,
{
    match v {
        Json::Int(n) => i64::MIN <= n <= i64::MAX,
        Json::Arr(a) => wf_arr(a),
        Json::Obj(o) => wf_obj(o),
        _ => true,
    }
}

pub open spec fn wf_arr(a: Seq<Json>) -> bool
    decreases a,
{
    if a.len() == 0 {
        true
    } else {
        wf_json(a[0]) && wf_arr(a.drop_first())
    }
}

pub open spec fn wf_obj(o: Seq<(Seq<char>, Json)>) -> bool
    decreases o,
{
    if o.len() == 0 {
        true
    } else {
        wf_json(o[0].1) && wf_obj(o.drop_first())
    }
}

proof fn lemma_wf_arr_index(a: Seq<Json>, i: int)
    requires
        wf_arr(a),
        0 <= i < a.len(),
    ensures
        wf_json(a[i]),
        wf_arr(a.drop_first()),
    decreases a,
{
    if i > 0 {
        assert(a.drop_first()[i - 1] == a[i]);
        lemma_wf_arr_index(a.drop_first(), i - 1);
    }
}

proof fn lemma_wf_obj_index(o: Seq<(Seq<char>, Json)>, i: int)
    requires
        wf_obj(o),
        0 <= i < o.len(),
    ensures
        wf_json(o[i].1),
        wf_obj(o.drop_first()),
    decreases o,
{
    if i > 0 {
        assert(o.drop_first()[i - 1] == o[i]);
        lemma_wf_obj_index(o.drop_first(), i - 1);
    }
}

// ---------------------------------------------------------------------------
// Digits
// ---------------------------------------------------------------------------

proof fn lemma_dseq_shape(n: int)
    requires
        n >= 0,
    ensures
        dseq(n).len() >= 1,
        forall|i: int| 0 <= i < dseq(n).len() ==> is_digit(#[trigger] dseq(n)[i]),
        is_digit(dseq(n)[0]),
    decreases n,
{
    if n < 10 {
        assert(dseq(n) =~= seq![digit_char(n)]);
        assert(dval(digit_char(n)) == n);
    } else {
        lemma_dseq_shape(n / 10);
        assert(dval(digit_char(n % 10)) == n % 10);
        assert forall|i: int| 0 <= i < dseq(n).len() implies is_digit(#[trigger] dseq(n)[i]) by {
            if i < dseq(n / 10).len() {
                assert(dseq(n)[i] == dseq(n / 10)[i]);
            } else {
                assert(dseq(n)[i] == digit_char(n % 10));
            }
        }
    }
}

proof fn lemma_digits_val_split_last(s: Seq<char>, i: int, j: int, acc: int)
    requires
        i < j,
    ensures
        digits_val(s, i, j, acc) == digits_val(s, i, j - 1, acc) * 10 + dval(s[j - 1]),
    decreases j - i,
{
    if i + 1 < j {
        lemma_digits_val_split_last(s, i + 1, j, acc * 10 + dval(s[i]));
        assert(digits_val(s, i, j, acc) == digits_val(s, i + 1, j, acc * 10 + dval(s[i])));
        assert(digits_val(s, i, j - 1, acc) == digits_val(s, i + 1, j - 1, acc * 10 + dval(s[i])));
    } else {
        assert(digits_val(s, i + 1, j, acc * 10 + dval(s[i])) == acc * 10 + dval(s[i]));
        assert(digits_val(s, i, j - 1, acc) == acc);
    }
}

proof fn lemma_digits_of_dseq(n: int, s: Seq<char>, i: int)
    requires
        n >= 0,
        0 <= i,
        i + dseq(n).len() <= s.len(),
        s.subrange(i, i + dseq(n).len() as int) == dseq(n),
    ensures
        digits_val(s, i, i + dseq(n).len() as int, 0) == n,
    decreases n,
{
    let j = i + dseq(n).len() as int;
    if n < 10 {
        assert(dseq(n) =~= seq![digit_char(n)]);
        assert(s.subrange(i, j)[0] == dseq(n)[0]);
        assert(s[i] == digit_char(n));
        assert(dval(digit_char(n)) == n);
        assert(digits_val(s, i + 1, j, 0 * 10 + dval(s[i])) == dval(s[i]));
        assert(digits_val(s, i, j, 0) == n);
    } else {
        lemma_dseq_shape(n / 10);
        let m = dseq(n / 10).len() as int;
        assert(dseq(n) == dseq(n / 10).push(digit_char(n % 10)));
        assert(s.subrange(i, i + m) =~= dseq(n / 10)) by {
            assert forall|q: int| 0 <= q < m implies #[trigger] s.subrange(i, i + m)[q] == dseq(
                n / 10,
            )[q] by {
                assert(s.subrange(i, j)[q] == dseq(n)[q]);
                assert(dseq(n)[q] == dseq(n / 10)[q]);
            }
        }
        lemma_digits_of_dseq(n / 10, s, i);
        lemma_digits_val_split_last(s, i, j, 0);
        assert(s[j - 1] == digit_char(n % 10)) by {
            assert(s.subrange(i, j)[j - 1 - i] == dseq(n)[j - 1 - i]);
        }
        assert(dval(digit_char(n % 10)) == n % 10);
    }
}

proof fn lemma_end_digits_at(s: Seq<char>, i: int, j: int)
    requires
        0 <= i <= j <= s.len(),
        forall|q: int| i <= q < j ==> is_digit(s[q]),
        j == s.len() || !is_digit(s[j]),
    ensures
        end_digits(s, i) == j,
    decreases j - i,
{
    if i < j {
        lemma_end_digits_at(s, i + 1, j);
    }
}

// ---------------------------------------------------------------------------
// Strings
// ---------------------------------------------------------------------------

proof fn lemma_esc_concat(a: Seq<char>, b: Seq<char>)
    ensures
        esc(a + b) == esc(a) + esc(b),
    decreases b.len(),
{
    if b.len() == 0 {
        assert(a + b =~= a);
        assert(esc(a) + esc(b) =~= esc(a));
    } else {
        assert((a + b).drop_last() =~= a + b.drop_last());
        assert((a + b).last() == b.last());
        lemma_esc_concat(a, b.drop_last());
        assert(esc(a) + esc(b.drop_last()) + esc_char(b.last()) =~= esc(a) + (esc(b.drop_last())
            + esc_char(b.last())));
    }
}

proof fn lemma_esc_first(k: Seq<char>)
    requires
        k.len() >= 1,
    ensures
        esc(k) == esc_char(k[0]) + esc(k.drop_first()),
{
    assert(k =~= seq![k[0]] + k.drop_first());
    lemma_esc_concat(seq![k[0]], k.drop_first());
    assert(esc(seq![k[0]]) =~= esc_char(k[0])) by {
        assert(seq![k[0]].drop_last() =~= Seq::<char>::empty());
        assert(esc(seq![k[0]]) =~= esc(Seq::<char>::empty()) + esc_char(k[0]));
    }
    assert(esc(k) == esc(seq![k[0]] + k.drop_first()));
}

proof fn lemma_parse_esc_body(k: Seq<char>, s: Seq<char>, i: int, acc: Seq<char>)
    requires
        0 <= i,
        i + esc(k).len() + 1 <= s.len(),
        s.subrange(i, i + esc(k).len() + 1) == esc(k).push('"'),
    ensures
        parse_string_body(s, i, acc) == Some((acc + k, i + esc(k).len() + 1)),
    decreases k.len(),
{
    let l = esc(k).len() as int;
    if k.len() == 0 {
        assert(esc(k) =~= Seq::<char>::empty());
        assert(s[i] == '"') by {
            assert(s.subrange(i, i + 1)[0] == esc(k).push('"')[0]);
        }
        assert(acc + k =~= acc);
    } else {
        let c = k[0];
        let rest = k.drop_first();
        lemma_esc_first(k);
        let e0 = esc_char(c).len() as int;
        assert(esc(k).push('"') =~= esc_char(c) + esc(rest).push('"'));
        assert forall|q: int| 0 <= q < e0 implies s[i + q] == esc_char(c)[q] by {
            assert(s.subrange(i, i + l + 1)[q] == esc(k).push('"')[q]);
        }
        assert(s.subrange(i + e0, i + l + 1) =~= esc(rest).push('"')) by {
            assert forall|q: int| 0 <= q < l + 1 - e0 implies s.subrange(i + e0, i + l + 1)[q]
                == esc(rest).push('"')[q] by {
                assert(s.subrange(i, i + l + 1)[q + e0] == esc(k).push('"')[q + e0]);
                assert(esc(k).push('"')[q + e0] == (esc_char(c) + esc(rest).push('"'))[q + e0]);
            }
        }
        if c == '"' {
            assert(s[i + 0] == esc_char(c)[0]);
            assert(s[i + 1] == esc_char(c)[1]);
            assert(s[i] == '\\' && s[i + 1] == '"');
            lemma_parse_esc_body(rest, s, i + 2, acc.push('"'));
            assert(acc.push('"') + rest =~= acc + k);
        } else if c == '\\' {
            assert(s[i + 0] == esc_char(c)[0]);
            assert(s[i + 1] == esc_char(c)[1]);
            assert(s[i] == '\\' && s[i + 1] == '\\');
            lemma_parse_esc_body(rest, s, i + 2, acc.push('\\'));
            assert(acc.push('\\') + rest =~= acc + k);
        } else {
            assert(s[i + 0] == esc_char(c)[0]);
            assert(s[i] == c);
            assert(s[i] != '"' && s[i] != '\\');
            lemma_parse_esc_body(rest, s, i + 1, acc.push(c));
            assert(acc.push(c) + rest =~= acc + k);
        }
    }
}

// ---------------------------------------------------------------------------
// Values
// ---------------------------------------------------------------------------

proof fn lemma_subrange_transfer(s: Seq<char>, i: int, t: Seq<char>, a: int, b: int)
    requires
        0 <= i,
        i + t.len() <= s.len(),
        s.subrange(i, i + t.len() as int) == t,
        0 <= a <= b <= t.len(),
    ensures
        s.subrange(i + a, i + b) == t.subrange(a, b),
{
    assert forall|q: int| 0 <= q < b - a implies #[trigger] s.subrange(i + a, i + b)[q]
        == t.subrange(a, b)[q] by {
        assert(s.subrange(i, i + t.len() as int)[a + q] == t[a + q]);
    }
    assert(s.subrange(i + a, i + b) =~= t.subrange(a, b));
}

proof fn lemma_char_transfer(s: Seq<char>, i: int, t: Seq<char>, q: int)
    requires
        0 <= i,
        i + t.len() <= s.len(),
        s.subrange(i, i + t.len() as int) == t,
        0 <= q < t.len(),
    ensures
        s[i + q] == t[q],
{
    assert(s.subrange(i, i + t.len() as int)[q] == t[q]);
}

/// The first character of a rendered document: never whitespace and never a
/// closing token, so the next value always starts where the renderer put it.
proof fn lemma_ser_first(v: Json)
    ensures
        ser(v).len() >= 1,
        !is_ws(ser(v)[0]),
        ser(v)[0] != ']',
        ser(v)[0] != '}',
        ser(v)[0] != ',',
        ser(v)[0] != ':',
{
    reveal_strlit("null");
    reveal_strlit("true");
    reveal_strlit("false");
    match v {
        Json::Int(n) => {
            if n >= 0 {
                lemma_dseq_shape(n);
                assert(int_chars(n)[0] == dseq(n)[0]);
            } else {
                lemma_dseq_shape(-n);
                assert(int_chars(n)[0] == '-');
            }
        },
        _ => {},
    }
}

/// An array body of two or more elements starts with its first element, a
/// comma, and the body of the rest.
proof fn lemma_ser_items_decomp(a: Seq<Json>, n: int)
    requires
        2 <= n <= a.len(),
    ensures
        ser_items(a, n) == ser(a[0]) + seq![','] + ser_items(a.drop_first(), n - 1),
    decreases n,
{
    if n == 2 {
        assert(ser_items(a, 2) == ser_items(a, 1) + seq![','] + ser(a[1]));
        assert(a.drop_first()[0] == a[1]);
        assert(ser_items(a.drop_first(), 1) == ser(a[1]));
        assert(ser(a[0]) + seq![','] + ser(a[1]) =~= ser(a[0]) + seq![','] + ser_items(
            a.drop_first(),
            1,
        ));
    } else {
        lemma_ser_items_decomp(a, n - 1);
        assert(a.drop_first()[n - 2] == a[n - 1]);
        assert(ser_items(a.drop_first(), n - 1) == ser_items(a.drop_first(), n - 2) + seq![',']
            + ser(a[n - 1]));
        assert(ser(a[0]) + seq![','] + ser_items(a.drop_first(), n - 1) =~= ser(a[0]) + seq![',']
            + ser_items(a.drop_first(), n - 2) + seq![','] + ser(a[n - 1]));
        assert(ser_items(a, n) =~= ser(a[0]) + seq![','] + ser_items(a.drop_first(), n - 1));
    }
}

/// An object body of two or more members starts with its first member, a
/// comma, and the body of the rest.
proof fn lemma_ser_members_decomp(o: Seq<(Seq<char>, Json)>, n: int)
    requires
        2 <= n <= o.len(),
    ensures
        ser_members(o, n) == seq!['"'] + esc(o[0].0) + seq!['"', ':'] + ser(o[0].1) + seq![',']
            + ser_members(o.drop_first(), n - 1),
    decreases n,
{
    let m0 = seq!['"'] + esc(o[0].0) + seq!['"', ':'] + ser(o[0].1);
    assert(ser_members(o, 1) == m0);
    if n == 2 {
        assert(o.drop_first()[0] == o[1]);
        assert(ser_members(o.drop_first(), 1) == seq!['"'] + esc(o[1].0) + seq!['"', ':'] + ser(
            o[1].1,
        ));
        assert(ser_members(o, 2) =~= m0 + seq![','] + ser_members(o.drop_first(), 1));
    } else {
        lemma_ser_members_decomp(o, n - 1);
        assert(o.drop_first()[n - 2] == o[n - 1]);
        assert(ser_members(o.drop_first(), n - 1) == ser_members(o.drop_first(), n - 2) + seq![',']
            + (seq!['"'] + esc(o[n - 1].0) + seq!['"', ':'] + ser(o[n - 1].1)));
        assert(ser_members(o, n) =~= m0 + seq![','] + ser_members(o.drop_first(), n - 1));
    }
}

/// Parsing the canonical text of a well-formed document, embedded in any
/// larger text and not followed by a digit, yields exactly that document.
pub proof fn lemma_parse_of_ser(v: Json, s: Seq<char>, i: int, f: int)
    requires
        wf_json(v),
        0 <= i,
        i + ser(v).len() <= s.len(),
        s.subrange(i, i + ser(v).len() as int) == ser(v),
        f >= 2 * (s.len() - i) + 2,
        i + ser(v).len() < s.len() ==> !is_digit(s[i + ser(v).len()]),
    ensures
        parse_value(s, i, f) == Some((v, i + ser(v).len())),
    decreases v, 0int,
{
    reveal_strlit("null");
    reveal_strlit("true");
    reveal_strlit("false");
    let t = ser(v);
    let l = t.len() as int;
    lemma_ser_first(v);
    lemma_char_transfer(s, i, t, 0);
    match v {
        Json::Null => {
            assert(s[i] == 'n');
            assert(s.subrange(i, i + 4) == "null"@);
        },
        Json::Bool(b) => {
            if b {
                assert(s[i] == 't');
                assert(s.subrange(i, i + 4) == "true"@);
            } else {
                assert(s[i] == 'f');
                assert(s.subrange(i, i + 5) == "false"@);
            }
        },
        Json::Int(n) => {
            if n >= 0 {
                lemma_dseq_shape(n);
                assert(t =~= dseq(n));
                assert(is_digit(s[i]));
                assert forall|q: int| i <= q < i + l implies is_digit(s[q]) by {
                    lemma_char_transfer(s, i, t, q - i);
                }
                lemma_end_digits_at(s, i, i + l);
                lemma_digits_of_dseq(n, s, i);
                assert(parse_value(s, i, f) == Some((Json::Int(n), i + l)));
            } else {
                lemma_dseq_shape(-n);
                assert(t =~= seq!['-'] + dseq(-n));
                assert(s[i] == '-');
                let dl = dseq(-n).len() as int;
                assert forall|q: int| i + 1 <= q < i + l implies is_digit(s[q]) by {
                    lemma_char_transfer(s, i, t, q - i);
                    assert(t[q - i] == dseq(-n)[q - i - 1]);
                }
                lemma_char_transfer(s, i, t, 1);
                assert(t[1] == dseq(-n)[0]);
                assert(is_digit(s[i + 1]));
                lemma_end_digits_at(s, i + 1, i + l);
                lemma_subrange_transfer(s, i, t, 1, l);
                assert(t.subrange(1, l) =~= dseq(-n));
                lemma_digits_of_dseq(-n, s, i + 1);
                assert(digits_val(s, i + 1, i + l, 0) == -n);
                assert(-n <= 0x8000_0000_0000_0000);
                assert(parse_value(s, i, f) == Some((Json::Int(n), i + l)));
            }
        },
        Json::Str(k) => {
            assert(s[i] == '"');
            lemma_subrange_transfer(s, i, t, 1, l);
            assert(t.subrange(1, l) =~= esc(k).push('"'));
            lemma_parse_esc_body(k, s, i + 1, Seq::empty());
            assert(Seq::empty() + k =~= k);
            assert(parse_value(s, i, f) == Some((Json::Str(k), i + l)));
        },
        Json::Arr(a) => {
            assert(s[i] == '[');
            let n = a.len() as int;
            let body = ser_items(a, n);
            if n == 0 {
                assert(body =~= Seq::<char>::empty());
                assert(t =~= seq!['[', ']']);
                lemma_char_transfer(s, i, t, 1);
                assert(s[i + 1] == ']');
                assert(skip_ws(s, i + 1) == i + 1);
                assert(a =~= Seq::<Json>::empty());
                assert(parse_value(s, i, f) == Some((Json::Arr(a), i + 2)));
            } else {
                lemma_ser_items_first(a);
                lemma_wf_arr_index(a, 0);
                lemma_ser_first(a[0]);
                lemma_char_transfer(s, i, t, 1);
                assert(t[1] == body[0]);
                assert(body[0] == ser(a[0])[0]);
                assert(!is_ws(s[i + 1]) && s[i + 1] != ']');
                assert(skip_ws(s, i + 1) == i + 1);
                lemma_subrange_transfer(s, i, t, 1, l);
                assert(t.subrange(1, l) =~= body.push(']'));
                assert(s.subrange(i + 1, i + 1 + body.len() + 1) == body.push(']'));
                lemma_parse_items_of_ser(a, s, i + 1, f - 1);
                assert(parse_value(s, i, f) == Some((Json::Arr(a), i + l)));
            }
        },
        Json::Obj(o) => {
            assert(s[i] == '{');
            let n = o.len() as int;
            let body = ser_members(o, n);
            if n == 0 {
                assert(body =~= Seq::<char>::empty());
                assert(t =~= seq!['{', '}']);
                lemma_char_transfer(s, i, t, 1);
                assert(s[i + 1] == '}');
                assert(skip_ws(s, i + 1) == i + 1);
                assert(o =~= Seq::<(Seq<char>, Json)>::empty());
                assert(parse_value(s, i, f) == Some((Json::Obj(o), i + 2)));
            } else {
                lemma_ser_members_first(o);
                lemma_char_transfer(s, i, t, 1);
                assert(t[1] == body[0]);
                assert(s[i + 1] == '"');
                assert(skip_ws(s, i + 1) == i + 1);
                lemma_subrange_transfer(s, i, t, 1, l);
                assert(t.subrange(1, l) =~= body.push('}'));
                assert(s.subrange(i + 1, i + 1 + body.len() + 1) == body.push('}'));
                lemma_parse_members_of_ser(o, s, i + 1, f - 1);
                assert(parse_value(s, i, f) == Some((Json::Obj(o), i + l)));
            }
        },
    }
}

/// A non-empty array body starts with its first element's first character.
proof fn lemma_ser_items_first(a: Seq<Json>)
    requires
        a.len() >= 1,
    ensures
        ser_items(a, a.len() as int).len() >= 1,
        ser_items(a, a.len() as int)[0] == ser(a[0])[0],
{
    let n = a.len() as int;
    lemma_ser_first(a[0]);
    if n == 1 {
    } else {
        lemma_ser_items_decomp(a, n);
    }
}

/// A non-empty object body starts with the quote of its first key.
proof fn lemma_ser_members_first(o: Seq<(Seq<char>, Json)>)
    requires
        o.len() >= 1,
    ensures
        ser_members(o, o.len() as int).len() >= 1,
        ser_members(o, o.len() as int)[0] == '"',
{
    let n = o.len() as int;
    if n == 1 {
    } else {
        lemma_ser_members_decomp(o, n);
    }
}

/// Parsing the rendered elements of a non-empty array, up to the closing
/// bracket, yields exactly those elements.
proof fn lemma_parse_items_of_ser(b: Seq<Json>, s: Seq<char>, i: int, f: int)
    requires
        b.len() >= 1,
        wf_arr(b),
        0 <= i,
        i + ser_items(b, b.len() as int).len() + 1 <= s.len(),
        s.subrange(i, i + ser_items(b, b.len() as int).len() + 1) == ser_items(
            b,
            b.len() as int,
        ).push(']'),
        f >= 2 * (s.len() - i) + 3,
    ensures
        parse_items(s, i, f) == Some((b, i + ser_items(b, b.len() as int).len() + 1)),
    decreases b, 1int,
{
    let n = b.len() as int;
    let body = ser_items(b, n);
    let t = body.push(']');
    let l = t.len() as int;
    lemma_wf_arr_index(b, 0);
    lemma_ser_first(b[0]);
    let e0 = ser(b[0]).len() as int;
    if n == 1 {
        assert(body == ser(b[0]));
        lemma_subrange_transfer(s, i, t, 0, e0);
        assert(t.subrange(0, e0) =~= ser(b[0]));
        lemma_char_transfer(s, i, t, e0);
        assert(t[e0] == ']');
        lemma_parse_of_ser(b[0], s, i, f - 1);
        let j = i + e0;
        assert(skip_ws(s, j) == j);
        assert(seq![b[0]] =~= b);
        assert(parse_items(s, i, f) == Some((b, j + 1)));
    } else {
        lemma_ser_items_decomp(b, n);
        let rest = b.drop_first();
        let rbody = ser_items(rest, n - 1);
        assert(body == ser(b[0]) + seq![','] + rbody);
        lemma_subrange_transfer(s, i, t, 0, e0);
        assert(t.subrange(0, e0) =~= ser(b[0]));
        lemma_char_transfer(s, i, t, e0);
        assert(t[e0] == ',');
        lemma_parse_of_ser(b[0], s, i, f - 1);
        let j = i + e0;
        assert(skip_ws(s, j) == j);
        lemma_ser_items_first(rest);
        lemma_char_transfer(s, i, t, e0 + 1);
        assert(t[e0 + 1] == rbody[0]);
        lemma_wf_arr_index(b, 1);
        assert(rest[0] == b[1]);
        lemma_ser_first(rest[0]);
        assert(!is_ws(s[j + 1]));
        assert(skip_ws(s, j + 1) == j + 1);
        lemma_subrange_transfer(s, i, t, e0 + 1, l);
        assert(t.subrange(e0 + 1, l) =~= rbody.push(']'));
        lemma_parse_items_of_ser(rest, s, j + 1, f - 1);
        assert(seq![b[0]] + rest =~= b);
        assert(parse_items(s, i, f) == Some((b, i + body.len() + 1)));
    }
}

/// Parsing the rendered members of a non-empty object, up to the closing
/// brace, yields exactly those members.
proof fn lemma_parse_members_of_ser(o: Seq<(Seq<char>, Json)>, s: Seq<char>, i: int, f: int)
    requires
        o.len() >= 1,
        wf_obj(o),
        0 <= i,
        i + ser_members(o, o.len() as int).len() + 1 <= s.len(),
        s.subrange(i, i + ser_members(o, o.len() as int).len() + 1) == ser_members(
            o,
            o.len() as int,
        ).push('}'),
        f >= 2 * (s.len() - i) + 3,
    ensures
        parse_members(s, i, f) == Some((o, i + ser_members(o, o.len() as int).len() + 1)),
    decreases o, 1int,
{
    let n = o.len() as int;
    let body = ser_members(o, n);
    let t = body.push('}');
    let l = t.len() as int;
    let key = o[0].0;
    let v0 = o[0].1;
    lemma_wf_obj_index(o, 0);
    let m0 = seq!['"'] + esc(key) + seq!['"', ':'] + ser(v0);
    let ek = esc(key).len() as int;
    let e0 = m0.len() as int;
    if n == 1 {
        assert(body == m0);
    } else {
        lemma_ser_members_decomp(o, n);
        assert(body == m0 + seq![','] + ser_members(o.drop_first(), n - 1));
    }
    lemma_char_transfer(s, i, t, 0);
    assert(t[0] == '"');
    assert(s[i] == '"');
    lemma_subrange_transfer(s, i, t, 1, 1 + ek + 1);
    assert(t.subrange(1, 1 + ek + 1) =~= esc(key).push('"'));
    lemma_parse_esc_body(key, s, i + 1, Seq::empty());
    assert(Seq::empty() + key =~= key);
    let j = i + 1 + ek + 1;
    lemma_char_transfer(s, i, t, 1 + ek + 1);
    assert(t[1 + ek + 1] == ':');
    assert(s[j] == ':');
    assert(skip_ws(s, j) == j);
    lemma_ser_first(v0);
    lemma_char_transfer(s, i, t, 1 + ek + 2);
    assert(t[1 + ek + 2] == ser(v0)[0]);
    assert(!is_ws(s[j + 1]));
    assert(skip_ws(s, j + 1) == j + 1);
    lemma_subrange_transfer(s, i, t, 1 + ek + 2, 1 + ek + 2 + ser(v0).len() as int);
    assert(t.subrange(1 + ek + 2, 1 + ek + 2 + ser(v0).len() as int) =~= ser(v0));
    lemma_char_transfer(s, i, t, e0);
    if n == 1 {
        assert(t[e0] == '}');
    } else {
        assert(t[e0] == ',');
    }
    lemma_parse_of_ser(v0, s, j + 1, f - 1);
    let m = j + 1 + ser(v0).len() as int;
    assert(m == i + e0);
    assert(skip_ws(s, m) == m);
    if n == 1 {
        assert(s[m] == '}');
        assert(seq![(key, v0)] =~= o);
        assert(parse_members(s, i, f) == Some((o, m + 1)));
    } else {
        assert(s[m] == ',');
        let rest = o.drop_first();
        let rbody = ser_members(rest, n - 1);
        lemma_ser_members_first(rest);
        lemma_char_transfer(s, i, t, e0 + 1);
        assert(t[e0 + 1] == rbody[0]);
        assert(s[m + 1] == '"');
        assert(skip_ws(s, m + 1) == m + 1);
        lemma_subrange_transfer(s, i, t, e0 + 1, l);
        assert(t.subrange(e0 + 1, l) =~= rbody.push('}'));
        lemma_parse_members_of_ser(rest, s, m + 1, f - 1);
        assert(seq![(key, v0)] + rest =~= o);
        assert(parse_members(s, i, f) == Some((o, i + body.len() + 1)));
    }
}

/// Round trip: the canonical text of a well-formed document parses back to
/// exactly that document.
pub proof fn lemma_parse_text_of_ser(v: Json)
    requires
        wf_json(v),
    ensures
        parse_text(ser(v)) == Some(v),
{
    let s = ser(v);
    lemma_ser_first(v);
    assert(s.subrange(0, s.len() as int) =~= s);
    assert(skip_ws(s, 0) == 0);
    lemma_parse_of_ser(v, s, 0, 2 * (s.len() as int) + 2);
    assert(skip_ws(s, s.len() as int) == s.len());
}

/// Persisting a result and reading the target back: after the atomic write
/// of the envelope of `(path, data)`, the target's content parses to an
/// envelope whose `data` member is `data` and whose `original_path` member
/// is `path`.
pub proof fn lemma_persist_round_trip(
    fs: crate::disk::DiskModel,
    target: Seq<char>,
    path: Seq<char>,
    analyzed_at: Seq<char>,
    data: Json,
)
    requires
        wf_json(data),
    ensures
        ({
            let env = crate::envelope::envelope_model(path, analyzed_at, data);
            let fs2 = crate::disk::atomic_write(fs, target, ser(env));
            &&& fs2.files.dom().contains(target)
            &&& parse_text(fs2.files[target]) == Some(env)
            &&& crate::store::lookup(env->Obj_0, "data"@) == Some(data)
            &&& crate::store::lookup(env->Obj_0, "original_path"@) == Some(Json::Str(path))
        }),
{
    let env = crate::envelope::envelope_model(path, analyzed_at, data);
    let mems = env->Obj_0;
    crate::disk::lemma_atomic_write_complete(fs, target, ser(env));
    assert(wf_json(env)) by {
        let m3 = seq![("data"@, data)];
        let m2 = seq![("analyzed_at"@, Json::Str(analyzed_at)), ("data"@, data)];
        let m1 = seq![
            ("original_path"@, Json::Str(path)),
            ("analyzed_at"@, Json::Str(analyzed_at)),
            ("data"@, data),
        ];
        assert(m3.drop_first() =~= Seq::<(Seq<char>, Json)>::empty());
        assert(wf_obj(Seq::<(Seq<char>, Json)>::empty()));
        assert(wf_json(Json::Str(analyzed_at)));
        assert(wf_json(Json::Str(path)));
        assert(wf_json(Json::Int(1)));
        assert(wf_obj(m3));
        assert(m2.drop_first() =~= m3);
        assert(wf_obj(m2));
        assert(m1.drop_first() =~= m2);
        assert(wf_obj(m1));
        assert(mems.drop_first() =~= m1);
        assert(wf_obj(mems));
    }
    lemma_parse_text_of_ser(env);
    reveal_strlit("schema_version");
    reveal_strlit("original_path");
    reveal_strlit("analyzed_at");
    reveal_strlit("data");
    crate::store::lemma_key_at_properties(mems, "data"@);
    crate::store::lemma_key_at_properties(mems, "original_path"@);
    assert(mems[3].0 == "data"@ && mems[1].0 == "original_path"@);
    assert("schema_version"@.len() == 14 && "original_path"@.len() == 13 && "analyzed_at"@.len()
        == 11 && "data"@.len() == 4);
    assert(crate::store::key_at(mems, "data"@) == 3) by {
        crate::store::lemma_key_at_properties(mems, "data"@);
        if crate::store::key_at(mems, "data"@) < 3 {
            assert(mems[crate::store::key_at(mems, "data"@)].0 == "data"@);
        }
    }
    assert(crate::store::key_at(mems, "original_path"@) == 1) by {
        crate::store::lemma_key_at_properties(mems, "original_path"@);
        if crate::store::key_at(mems, "original_path"@) < 1 {
            assert(mems[crate::store::key_at(mems, "original_path"@)].0 == "original_path"@);
        }
    }
}

} // verus!
