use vstd::prelude::*;
use vstd::string::*;
use crate::json::{JsonValue, Json, jm, jm_seq, jm_obj, lemma_jm_seq_index, lemma_jm_obj_index,
    lemma_jm_seq_len, lemma_jm_obj_len, dval, is_digit};

verus! {

/// Whitespace accepted between tokens.
pub open spec fn is_ws(c: char) -> bool {
    c == ' ' || c == '\n' || c == '\t' || c == '\r'
}

/// First index at or after `i` holding a non-whitespace character.
pub open spec fn skip_ws(s: Seq<char>, i: int) -> int
    decreases s.len() - i,
{
    if 0 <= i < s.len() && is_ws(s[i]) {
        skip_ws(s, i + 1)
    } else {
        i
    }
}

/// First index at or after `i` holding a non-digit character.
pub open spec fn end_digits(s: Seq<char>, i: int) -> int
    decreases s.len() - i,
{
    if 0 <= i < s.len() && is_digit(s[i]) {
        end_digits(s, i + 1)
    } else {
        i
    }
}

pub proof fn lemma_end_digits_bounds(s: Seq<char>, i: int)
    requires
        0 <= i <= s.len(),
    ensures
        i <= end_digits(s, i) <= s.len(),
    decreases s.len() - i,
{
    if i < s.len() && is_digit(s[i]) {
        lemma_end_digits_bounds(s, i + 1);
    }
}

/// The number read left to right from the digits in `[i, j)`, on top of `acc`.
pub open spec fn digits_val(s: Seq<char>, i: int, j: int, acc: int) -> int
    decreases j - i,
{
    if i < j {
        digits_val(s, i + 1, j, acc * 10 + dval(s[i]))
    } else {
        acc
    }
}

pub proof fn lemma_digits_val_lb(s: Seq<char>, i: int, j: int, acc: int)
    requires
        0 <= i,
        j <= s.len(),
        acc >= 0,
        forall|k: int| i <= k < j ==> is_digit(s[k]),
    ensures
        digits_val(s, i, j, acc) >= acc,
    decreases j - i,
{
    if i < j {
        assert(is_digit(s[i]));
        lemma_digits_val_lb(s, i + 1, j, acc * 10 + dval(s[i]));
    }
}

/// The body of a quoted string starting at `i` (just past the opening quote):
/// the decoded characters and the index just past the closing quote.
pub open spec fn parse_string_body(s: Seq<char>, i: int, acc: Seq<char>) -> Option<
    (Seq<char>, int),
>
    decreases s.len() - i,
{
    if i < 0 || i >= s.len() {
        None
    } else if s[i] == '"' {
        Some((acc, i + 1))
    } else if s[i] == '\\' {
        if i + 1 < s.len() {
            let e = s[i + 1];
            if e == '"' {
                parse_string_body(s, i + 2, acc.push('"'))
            } else if e == '\\' {
                parse_string_body(s, i + 2, acc.push('\\'))
            } else if e == 'n' {
                parse_string_body(s, i + 2, acc.push('\n'))
            } else if e == 't' {
                parse_string_body(s, i + 2, acc.push('\t'))
            } else if e == 'r' {
                parse_string_body(s, i + 2, acc.push('\r'))
            } else if e == '/' {
                parse_string_body(s, i + 2, acc.push('/'))
            } else {
                None
            }
        } else {
            None
        }
    } else {
        parse_string_body(s, i + 1, acc.push(s[i]))
    }
}

/// One document value starting at `i`. `f` is fuel for the nesting; with
/// `f >= 2 * (s.len() - i) + 2` it never runs out.
pub open spec fn parse_value(s: Seq<char>, i: int, f: int) -> Option<(Json, int)>
    decreases f, 0int,
{
    if f <= 0 || i < 0 || i >= s.len() {
        None
    } else {
        let c = s[i];
        if c == 'n' {
            if i + 4 <= s.len() && s.subrange(i, i + 4) == "null"@ {
                Some((Json::Null, i + 4))
            } else {
                None
            }
        } else if c == 't' {
            if i + 4 <= s.len() && s.subrange(i, i + 4) == "true"@ {
                Some((Json::Bool(true), i + 4))
            } else {
                None
            }
        } else if c == 'f' {
            if i + 5 <= s.len() && s.subrange(i, i + 5) == "false"@ {
                Some((Json::Bool(false), i + 5))
            } else {
                None
            }
        } else if c == '"' {
            match parse_string_body(s, i + 1, Seq::empty()) {
                Some((body, j)) => Some((Json::Str(body), j)),
                None => None,
            }
        } else if c == '-' {
            if i + 1 < s.len() && is_digit(s[i + 1]) {
                let j = end_digits(s, i + 1);
                let v = digits_val(s, i + 1, j, 0);
                if v <= 0x8000_0000_0000_0000 {
                    Some((Json::Int(-v), j))
                } else {
                    None
                }
            } else {
                None
            }
        } else if is_digit(c) {
            let j = end_digits(s, i);
            let v = digits_val(s, i, j, 0);
            if v <= 0x7fff_ffff_ffff_ffff {
                Some((Json::Int(v), j))
            } else {
                None
            }
        } else if c == '[' {
            let k = skip_ws(s, i + 1);
            if k < s.len() && s[k] == ']' {
                Some((Json::Arr(Seq::empty()), k + 1))
            } else {
                match parse_items(s, k, f - 1) {
                    Some((vs, j)) => Some((Json::Arr(vs), j)),
                    None => None,
                }
            }
        } else if c == '{' {
            let k = skip_ws(s, i + 1);
            if k < s.len() && s[k] == '}' {
                Some((Json::Obj(Seq::empty()), k + 1))
            } else {
                match parse_members(s, k, f - 1) {
                    Some((ms, j)) => Some((Json::Obj(ms), j)),
                    None => None,
                }
            }
        } else {
            None
        }
    }
}

/// One or more comma-separated array elements starting at `i`, up to and
/// including the closing bracket.
pub open spec fn parse_items(s: Seq<char>, i: int, f: int) -> Option<(Seq<Json>, int)>
    decreases f, 1int,
{
    if f <= 0 {
        None
    } else {
        match parse_value(s, i, f - 1) {
            Some((v, j)) => {
                let k = skip_ws(s, j);
                if k < s.len() && s[k] == ']' {
                    Some((seq![v], k + 1))
                } else if k < s.len() && s[k] == ',' {
                    match parse_items(s, skip_ws(s, k + 1), f - 1) {
                        Some((vs, m)) => Some((seq![v] + vs, m)),
                        None => None,
                    }
                } else {
                    None
                }
            },
            None => None,
        }
    }
}

/// One or more comma-separated object members starting at `i`, up to and
/// including the closing brace.
pub open spec fn parse_members(s: Seq<char>, i: int, f: int) -> Option<
    (Seq<(Seq<char>, Json)>, int),
>
    decreases f, 1int,
{
    if f <= 0 {
        None
    } else if 0 <= i < s.len() && s[i] == '"' {
        match parse_string_body(s, i + 1, Seq::empty()) {
            Some((key, j)) => {
                let k = skip_ws(s, j);
                if k < s.len() && s[k] == ':' {
                    match parse_value(s, skip_ws(s, k + 1), f - 1) {
                        Some((v, m)) => {
                            let k2 = skip_ws(s, m);
                            if k2 < s.len() && s[k2] == '}' {
                                Some((seq![(key, v)], k2 + 1))
                            } else if k2 < s.len() && s[k2] == ',' {
                                match parse_members(s, skip_ws(s, k2 + 1), f - 1) {
                                    Some((ms, e)) => Some((seq![(key, v)] + ms, e)),
                                    None => None,
                                }
                            } else {
                                None
                            }
                        },
                        None => None,
                    }
                } else {
                    None
                }
            },
            None => None,
        }
    } else {
        None
    }
}

/// A whole document: one value with whitespace around it and nothing after.
pub open spec fn parse_text(s: Seq<char>) -> Option<Json> {
    let i = skip_ws(s, 0);
    match parse_value(s, i, 2 * (s.len() as int) + 2) {
        Some((v, j)) => if skip_ws(s, j) == s.len() {
            Some(v)
        } else {
            None
        },
        None => None,
    }
}

fn skip_ws_x(s: &str, n: usize, i: usize) -> (r: usize)
    requires
        n == s@.len(),
        i <= n,
    ensures
        i <= r <= n,
        r as int == skip_ws(s@, i as int),
    decreases n - i,
{
    if i < n {
        let c = s.get_char(i);
        if c == ' ' || c == '\n' || c == '\t' || c == '\r' {
            return skip_ws_x(s, n, i + 1);
        }
    }
    i
}

fn digit_code(c: char) -> (r: i64)
    ensures
        r as int == dval(c),
{
    if c == '0' {
        0
    } else if c == '1' {
        1
    } else if c == '2' {
        2
    } else if c == '3' {
        3
    } else if c == '4' {
        4
    } else if c == '5' {
        5
    } else if c == '6' {
        6
    } else if c == '7' {
        7
    } else if c == '8' {
        8
    } else if c == '9' {
        9
    } else {
        -1
    }
}

fn end_digits_x(s: &str, n: usize, i: usize) -> (r: usize)
    requires
        n == s@.len(),
        i <= n,
    ensures
        i <= r <= n,
        r as int == end_digits(s@, i as int),
    decreases n - i,
{
    if i < n {
        let c = s.get_char(i);
        if digit_code(c) >= 0 {
            return end_digits_x(s, n, i + 1);
        }
    }
    i
}

/// The value of the digit run `[i, j)`, or `None` where it exceeds `u64`.
fn digits_value_x(s: &str, n: usize, i: usize, j: usize) -> (r: Option<u64>)
    requires
        n == s@.len(),
        i <= j <= n,
        forall|k: int| i <= k < j ==> is_digit(s@[k]),
    ensures
        match r {
            Some(v) => v as int == digits_val(s@, i as int, j as int, 0),
            None => digits_val(s@, i as int, j as int, 0) > u64::MAX,
        },
{
    let mut acc: u64 = 0;
    let mut cur: usize = i;
    while cur < j
        invariant
            n == s@.len(),
            i <= cur <= j <= n,
            forall|k: int| i <= k < j ==> is_digit(s@[k]),
            digits_val(s@, i as int, j as int, 0) == digits_val(
                s@,
                cur as int,
                j as int,
                acc as int,
            ),
        decreases j - cur,
    {
        let c = s.get_char(cur);
        let d = digit_code(c);
        if acc > u64::MAX / 10 || (acc == u64::MAX / 10 && d > 5) {
            proof {
                let di = dval(s@[cur as int]);
                lemma_digits_val_lb(s@, cur as int + 1, j as int, acc as int * 10 + di);
                assert(digits_val(s@, cur as int, j as int, acc as int) >= acc as int * 10 + di);
                assert(acc as int * 10 + di > u64::MAX);
            }
            return None;
        }
        acc = acc * 10 + (d as u64);
        cur += 1;
    }
    Some(acc)
}

/// The decoded string body from `i` (just past the opening quote).
fn parse_string_body_x(s: &str, n: usize, i: usize, acc: String) -> (r: Option<(String, usize)>)
    requires
        n == s@.len(),
        i <= n,
    ensures
        match r {
            Some(p) => parse_string_body(s@, i as int, acc@) == Some((p.0@, p.1 as int)) && i < p.1
                <= n,
            None => parse_string_body(s@, i as int, acc@) is None,
        },
    decreases n - i,
{
    if i >= n {
        return None;
    }
    let c = s.get_char(i);
    if c == '"' {
        return Some((acc, i + 1));
    }
    if c == '\\' {
        if i + 1 >= n {
            return None;
        }
        let e = s.get_char(i + 1);
        let ghost acc0 = acc@;
        let mut acc2 = acc;
        if e == '"' {
            acc2.append("\"");
            proof {
                reveal_strlit("\"");
                assert(acc2@ =~= acc0.push('"'));
            }
            parse_string_body_x(s, n, i + 2, acc2)
        } else if e == '\\' {
            acc2.append("\\");
            proof {
                reveal_strlit("\\");
                assert(acc2@ =~= acc0.push('\\'));
            }
            parse_string_body_x(s, n, i + 2, acc2)
        } else if e == 'n' {
            acc2.append("\n");
            proof {
                reveal_strlit("\n");
                assert(acc2@ =~= acc0.push('\n'));
            }
            parse_string_body_x(s, n, i + 2, acc2)
        } else if e == 't' {
            acc2.append("\t");
            proof {
                reveal_strlit("\t");
                assert(acc2@ =~= acc0.push('\t'));
            }
            parse_string_body_x(s, n, i + 2, acc2)
        } else if e == 'r' {
            acc2.append("\r");
            proof {
                reveal_strlit("\r");
                assert(acc2@ =~= acc0.push('\r'));
            }
            parse_string_body_x(s, n, i + 2, acc2)
        } else if e == '/' {
            acc2.append("/");
            proof {
                reveal_strlit("/");
                assert(acc2@ =~= acc0.push('/'));
            }
            parse_string_body_x(s, n, i + 2, acc2)
        } else {
            None
        }
    } else {
        let piece = s.substring_char(i, i + 1);
        let ghost acc0 = acc@;
        let mut acc2 = acc;
        acc2.append(piece);
        proof {
            assert(piece@ =~= seq![s@[i as int]]);
            assert(acc2@ =~= acc0.push(s@[i as int]));
        }
        parse_string_body_x(s, n, i + 1, acc2)
    }
}

fn parse_value_x(s: &str, n: usize, i: usize, Ghost(f): Ghost<int>) -> (r: Option<
    (JsonValue, usize),
>)
    requires
        n == s@.len(),
        i <= n,
        f >= 2 * (n - i) + 2,
    ensures
        match r {
            Some(p) => parse_value(s@, i as int, f) == Some((jm(p.0), p.1 as int)) && i < p.1 <= n,
            None => parse_value(s@, i as int, f) is None,
        },
    decreases f, 0int,
{
    if i >= n {
        return None;
    }
    let c = s.get_char(i);
    if c == 'n' {
        proof {
            reveal_strlit("null");
        }
        if n - i >= 4 && s.get_char(i + 1) == 'u' && s.get_char(i + 2) == 'l' && s.get_char(i + 3)
            == 'l' {
            proof {
                assert(s@.subrange(i as int, i + 4) =~= "null"@);
            }
            Some((JsonValue::Null, i + 4))
        } else {
            proof {
                if i + 4 <= s@.len() {
                    assert(s@.subrange(i as int, i + 4)[0] == s@[i as int]);
                    assert(s@.subrange(i as int, i + 4)[1] == s@[i + 1]);
                    assert(s@.subrange(i as int, i + 4)[2] == s@[i + 2]);
                    assert(s@.subrange(i as int, i + 4)[3] == s@[i + 3]);
                }
            }
            None
        }
    } else if c == 't' {
        proof {
            reveal_strlit("true");
        }
        if n - i >= 4 && s.get_char(i + 1) == 'r' && s.get_char(i + 2) == 'u' && s.get_char(i + 3)
            == 'e' {
            proof {
                assert(s@.subrange(i as int, i + 4) =~= "true"@);
            }
            Some((JsonValue::Bool(true), i + 4))
        } else {
            proof {
                if i + 4 <= s@.len() {
                    assert(s@.subrange(i as int, i + 4)[0] == s@[i as int]);
                    assert(s@.subrange(i as int, i + 4)[1] == s@[i + 1]);
                    assert(s@.subrange(i as int, i + 4)[2] == s@[i + 2]);
                    assert(s@.subrange(i as int, i + 4)[3] == s@[i + 3]);
                }
            }
            None
        }
    } else if c == 'f' {
        proof {
            reveal_strlit("false");
        }
        if n - i >= 5 && s.get_char(i + 1) == 'a' && s.get_char(i + 2) == 'l' && s.get_char(i + 3)
            == 's' && s.get_char(i + 4) == 'e' {
            proof {
                assert(s@.subrange(i as int, i + 5) =~= "false"@);
            }
            Some((JsonValue::Bool(false), i + 5))
        } else {
            proof {
                if i + 5 <= s@.len() {
                    assert(s@.subrange(i as int, i + 5)[0] == s@[i as int]);
                    assert(s@.subrange(i as int, i + 5)[1] == s@[i + 1]);
                    assert(s@.subrange(i as int, i + 5)[2] == s@[i + 2]);
                    assert(s@.subrange(i as int, i + 5)[3] == s@[i + 3]);
                    assert(s@.subrange(i as int, i + 5)[4] == s@[i + 4]);
                }
            }
            None
        }
    } else if c == '"' {
        match parse_string_body_x(s, n, i + 1, String::new()) {
            Some((body, j)) => Some((JsonValue::Str(body), j)),
            None => None,
        }
    } else if c == '-' {
        if i + 1 < n && digit_code(s.get_char(i + 1)) >= 0 {
            let j = end_digits_x(s, n, i + 1);
            proof {
                lemma_end_digits_all_digits(s@, i + 1);
            }
            match digits_value_x(s, n, i + 1, j) {
                Some(v) => {
                    if v <= 0x8000_0000_0000_0000u64 {
                        let x: i64 = if v == 0x8000_0000_0000_0000u64 {
                            i64::MIN
                        } else {
                            -(v as i64)
                        };
                        proof {
                            assert(x as int == -(digits_val(s@, i + 1, j as int, 0)));
                        }
                        Some((JsonValue::Int(x), j))
                    } else {
                        None
                    }
                },
                None => None,
            }
        } else {
            None
        }
    } else if digit_code(c) >= 0 {
        let j = end_digits_x(s, n, i);
        proof {
            lemma_end_digits_all_digits(s@, i as int);
            lemma_end_digits_bounds(s@, i as int + 1);
            assert(end_digits(s@, i as int) == end_digits(s@, i as int + 1));
        }
        match digits_value_x(s, n, i, j) {
            Some(v) => {
                if v <= 0x7fff_ffff_ffff_ffffu64 {
                    Some((JsonValue::Int(v as i64), j))
                } else {
                    None
                }
            },
            None => None,
        }
    } else if c == '[' {
        let k = skip_ws_x(s, n, i + 1);
        if k < n && s.get_char(k) == ']' {
            proof {
                assert(jm_seq(Seq::<JsonValue>::empty()) =~= Seq::<Json>::empty());
            }
            Some((JsonValue::Arr(Vec::new()), k + 1))
        } else {
            match parse_items_x(s, n, k, Ghost(f - 1)) {
                Some((w, j)) => Some((JsonValue::Arr(w), j)),
                None => None,
            }
        }
    } else if c == '{' {
        let k = skip_ws_x(s, n, i + 1);
        if k < n && s.get_char(k) == '}' {
            proof {
                assert(jm_obj(Seq::<(String, JsonValue)>::empty()) =~= Seq::<
                    (Seq<char>, Json),
                >::empty());
            }
            Some((JsonValue::Obj(Vec::new()), k + 1))
        } else {
            match parse_members_x(s, n, k, Ghost(f - 1)) {
                Some((w, j)) => Some((JsonValue::Obj(w), j)),
                None => None,
            }
        }
    } else {
        None
    }
}

proof fn lemma_end_digits_all_digits(s: Seq<char>, i: int)
    requires
        0 <= i <= s.len(),
    ensures
        forall|k: int| i <= k < end_digits(s, i) ==> is_digit(s[k]),
        i <= end_digits(s, i) <= s.len(),
    decreases s.len() - i,
{
    lemma_end_digits_bounds(s, i);
    if i < s.len() && is_digit(s[i]) {
        lemma_end_digits_all_digits(s, i + 1);
    }
}

fn parse_items_x(s: &str, n: usize, i: usize, Ghost(f): Ghost<int>) -> (r: Option<
    (Vec<JsonValue>, usize),
>)
    requires
        n == s@.len(),
        i <= n,
        f >= 2 * (n - i) + 3,
    ensures
        match r {
            Some(p) => parse_items(s@, i as int, f) == Some((jm_seq(p.0@), p.1 as int)) && i < p.1
                <= n,
            None => parse_items(s@, i as int, f) is None,
        },
    decreases f, 1int,
{
    match parse_value_x(s, n, i, Ghost(f - 1)) {
        None => None,
        Some((v, j)) => {
            let k = skip_ws_x(s, n, j);
            if k < n && s.get_char(k) == ']' {
                let mut w: Vec<JsonValue> = Vec::new();
                w.push(v);
                proof {
                    assert(w@.drop_last() =~= Seq::<JsonValue>::empty());
                    assert(jm_seq(Seq::<JsonValue>::empty()) =~= Seq::<Json>::empty());
                    assert(jm_seq(w@) =~= seq![jm(v)]);
                }
                Some((w, k + 1))
            } else if k < n && s.get_char(k) == ',' {
                let i2 = skip_ws_x(s, n, k + 1);
                match parse_items_x(s, n, i2, Ghost(f - 1)) {
                    None => None,
                    Some((rest, m)) => {
                        let ghost rest0 = rest@;
                        let mut w = rest;
                        w.insert(0, v);
                        proof {
                            lemma_jm_seq_len(w@);
                            lemma_jm_seq_len(rest0);
                            assert forall|q: int| 0 <= q < w@.len() implies jm_seq(w@)[q] == (seq![
                                jm(v),
                            ] + jm_seq(rest0))[q] by {
                                lemma_jm_seq_index(w@, q);
                                if q > 0 {
                                    lemma_jm_seq_index(rest0, q - 1);
                                }
                            }
                            assert(jm_seq(w@) =~= seq![jm(v)] + jm_seq(rest0));
                        }
                        Some((w, m))
                    },
                }
            } else {
                None
            }
        },
    }
}

fn parse_members_x(s: &str, n: usize, i: usize, Ghost(f): Ghost<int>) -> (r: Option<
    (Vec<(String, JsonValue)>, usize),
>)
    requires
        n == s@.len(),
        i <= n,
        f >= 2 * (n - i) + 3,
    ensures
        match r {
            Some(p) => parse_members(s@, i as int, f) == Some((jm_obj(p.0@), p.1 as int)) && i
                < p.1 <= n,
            None => parse_members(s@, i as int, f) is None,
        },
    decreases f, 1int,
{
    if i >= n {
        return None;
    }
    if s.get_char(i) != '"' {
        return None;
    }
    match parse_string_body_x(s, n, i + 1, String::new()) {
        None => None,
        Some((key, j)) => {
            let k = skip_ws_x(s, n, j);
            if k < n && s.get_char(k) == ':' {
                let i2 = skip_ws_x(s, n, k + 1);
                match parse_value_x(s, n, i2, Ghost(f - 1)) {
                    None => None,
                    Some((v, m)) => {
                        let k2 = skip_ws_x(s, n, m);
                        if k2 < n && s.get_char(k2) == '}' {
                            let mut w: Vec<(String, JsonValue)> = Vec::new();
                            w.push((key, v));
                            proof {
                                assert(w@.drop_last() =~= Seq::<(String, JsonValue)>::empty());
                                assert(jm_obj(Seq::<(String, JsonValue)>::empty()) =~= Seq::<(Seq<char>, Json)>::empty());
                                assert(jm_obj(w@) =~= seq![(w@[0].0@, jm(w@[0].1))]);
                            }
                            Some((w, k2 + 1))
                        } else if k2 < n && s.get_char(k2) == ',' {
                            let i3 = skip_ws_x(s, n, k2 + 1);
                            match parse_members_x(s, n, i3, Ghost(f - 1)) {
                                None => None,
                                Some((rest, e)) => {
                                    let ghost rest0 = rest@;
                                    let ghost kv = (key@, jm(v));
                                    let mut w = rest;
                                    w.insert(0, (key, v));
                                    proof {
                                        lemma_jm_obj_len(w@);
                                        lemma_jm_obj_len(rest0);
                                        assert forall|q: int|
                                            0 <= q < w@.len() implies jm_obj(w@)[q] == (seq![kv]
                                            + jm_obj(rest0))[q] by {
                                            lemma_jm_obj_index(w@, q);
                                            if q > 0 {
                                                lemma_jm_obj_index(rest0, q - 1);
                                            }
                                        }
                                        assert(jm_obj(w@) =~= seq![kv] + jm_obj(rest0));
                                    }
                                    Some((w, e))
                                },
                            }
                        } else {
                            None
                        }
                    },
                }
            } else {
                None
            }
        },
    }
}

/// Parses a whole document out of `s`: exactly the values of the document
/// grammar `parse_text`, and nothing else, are accepted.
pub fn parse_document(s: &str) -> (r: Option<JsonValue>)
    ensures
        match r {
            Some(v) => parse_text(s@) == Some(jm(v)),
            None => parse_text(s@) is None,
        },
{
    let n = s.unicode_len();
    let i0 = skip_ws_x(s, n, 0);
    match parse_value_x(s, n, i0, Ghost(2 * (n as int) + 2)) {
        None => None,
        Some((v, j)) => {
            let e = skip_ws_x(s, n, j);
            if e == n {
                Some(v)
            } else {
                None
            }
        },
    }
}

} // verus!
