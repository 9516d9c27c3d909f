use vstd::prelude::*;
use vstd::string::*;

verus! {

broadcast use vstd::std_specs::vec::group_vec_axioms;

/// A schema-less JSON-like document: the shape of every analysis result the
/// cache stores, snapshots and persists. Numbers are integers; the cache's
/// own metadata and the aggregation rules never need fractions.
#[derive(Debug, PartialEq, Eq)]
pub enum JsonValue {
    Null,
    Bool(bool),
    Int(i64),
    Str(String),
    Arr(Vec<JsonValue>),
    Obj(Vec<(String, JsonValue)>),
}

/// The mathematical model of a document: what the contracts speak about.
#[verifier::ext_equal]
pub enum Json {
    Null,
    Bool(bool),
    Int(int),
    Str(Seq<char>),
    Arr(Seq<Json>),
    Obj(Seq<(Seq<char>, Json)>),
}

/// The model of an executable document.
pub open spec fn jm(v: JsonValue) -> Json
    decreases v,
{
    match v {
        JsonValue::Null => Json::Null,
        JsonValue::Bool(b) => Json::Bool(b),
        JsonValue::Int(i) => Json::Int(i as int),
        JsonValue::Str(s) => Json::Str(s@),
        JsonValue::Arr(a) => Json::Arr(jm_seq(a@)),
        JsonValue::Obj(o) => Json::Obj(jm_obj(o@)),
    }
}

pub open spec fn jm_seq(s: Seq<JsonValue>) -> Seq<Json>
    decreases s,
{
    if s.len() == 0 {
        Seq::empty()
    } else {
        jm_seq(s.drop_last()).push(jm(s.last()))
    }
}

pub open spec fn jm_obj(s: Seq<(String, JsonValue)>) -> Seq<(Seq<char>, Json)>
    decreases s,
{
    if s.len() == 0 {
        Seq::empty()
    } else {
        jm_obj(s.drop_last()).push((s.last().0@, jm(s.last().1)))
    }
}

pub proof fn lemma_jm_seq_len(s: Seq<JsonValue>)
    ensures
        jm_seq(s).len() == s.len(),
    decreases s,
{
    if s.len() > 0 {
        lemma_jm_seq_len(s.drop_last());
    }
}

pub proof fn lemma_jm_seq_index(s: Seq<JsonValue>, i: int)
    requires
        0 <= i < s.len(),
    ensures
        jm_seq(s).len() == s.len(),
        jm_seq(s)[i] == jm(s[i]),
    decreases s,
{
    lemma_jm_seq_len(s);
    if i < s.len() - 1 {
        lemma_jm_seq_index(s.drop_last(), i);
        assert(s.drop_last()[i] == s[i]);
    }
}

pub proof fn lemma_jm_obj_len(s: Seq<(String, JsonValue)>)
    ensures
        jm_obj(s).len() == s.len(),
    decreases s,
{
    if s.len() > 0 {
        lemma_jm_obj_len(s.drop_last());
    }
}

pub proof fn lemma_jm_obj_index(s: Seq<(String, JsonValue)>, i: int)
    requires
        0 <= i < s.len(),
    ensures
        jm_obj(s).len() == s.len(),
        jm_obj(s)[i] == (s[i].0@, jm(s[i].1)),
    decreases s,
{
    lemma_jm_obj_len(s);
    if i < s.len() - 1 {
        lemma_jm_obj_index(s.drop_last(), i);
        assert(s.drop_last()[i] == s[i]);
    }
}

/// A structural copy: the copy has the same model as the original.
#[verifier::loop_isolation(false)]
pub fn clone_value(v: &JsonValue) -> (r: JsonValue)
    ensures
        jm(r) == jm(*v),
    decreases *v,
{
    match v {
        JsonValue::Null => JsonValue::Null,
        JsonValue::Bool(b) => JsonValue::Bool(*b),
        JsonValue::Int(i) => JsonValue::Int(*i),
        JsonValue::Str(s) => JsonValue::Str(s.clone()),
        JsonValue::Arr(a) => {
            let mut w: Vec<JsonValue> = Vec::new();
            let n = a.len();
            let mut i: usize = 0;
            while i < n
                invariant
                    n == a.len(),
                    i <= n,
                    w@.len() == i,
                    forall|k: int| 0 <= k < i ==> jm(w@[k]) == jm(a@[k]),
                decreases n - i,
            {
                proof {
                    assert(decreases_to!(*v => *a));
                    assert(decreases_to!(*a => a@[i as int]));
                }
                let c = clone_value(&a[i]);
                w.push(c);
                i += 1;
            }
            proof {
                lemma_jm_seq_len(w@);
                lemma_jm_seq_len(a@);
                assert forall|k: int| 0 <= k < a@.len() implies jm_seq(w@)[k] == jm_seq(a@)[k] by {
                    lemma_jm_seq_index(w@, k);
                    lemma_jm_seq_index(a@, k);
                }
                assert(jm_seq(w@) =~= jm_seq(a@));
            }
            JsonValue::Arr(w)
        },
        JsonValue::Obj(o) => {
            let mut w: Vec<(String, JsonValue)> = Vec::new();
            let n = o.len();
            let mut i: usize = 0;
            while i < n
                invariant
                    n == o.len(),
                    i <= n,
                    w@.len() == i,
                    forall|k: int|
                        0 <= k < i ==> w@[k].0@ == o@[k].0@ && jm(w@[k].1) == jm(o@[k].1),
                decreases n - i,
            {
                proof {
                    assert(decreases_to!(*v => *o));
                    assert(decreases_to!(*o => o@[i as int]));
                    assert(decreases_to!(o@[i as int] => o@[i as int].1));
                }
                let key = o[i].0.clone();
                let c = clone_value(&o[i].1);
                w.push((key, c));
                i += 1;
            }
            proof {
                lemma_jm_obj_len(w@);
                lemma_jm_obj_len(o@);
                assert forall|k: int| 0 <= k < o@.len() implies jm_obj(w@)[k] == jm_obj(o@)[k] by {
                    lemma_jm_obj_index(w@, k);
                    lemma_jm_obj_index(o@, k);
                }
                assert(jm_obj(w@) =~= jm_obj(o@));
            }
            JsonValue::Obj(w)
        },
    }
}

/// A structural copy of a whole list of documents.
pub fn clone_values(xs: &Vec<JsonValue>) -> (r: Vec<JsonValue>)
    ensures
        jm_seq(r@) == jm_seq(xs@),
{
    let mut w: Vec<JsonValue> = Vec::new();
    let n = xs.len();
    let mut i: usize = 0;
    while i < n
        invariant
            n == xs@.len(),
            i <= n,
            w@.len() == i,
            forall|k: int| 0 <= k < i ==> jm(w@[k]) == jm(xs@[k]),
        decreases n - i,
    {
        let c = clone_value(&xs[i]);
        w.push(c);
        i += 1;
    }
    proof {
        lemma_jm_seq_len(w@);
        lemma_jm_seq_len(xs@);
        assert forall|k: int| 0 <= k < xs@.len() implies jm_seq(w@)[k] == jm_seq(xs@)[k] by {
            lemma_jm_seq_index(w@, k);
            lemma_jm_seq_index(xs@, k);
        }
        assert(jm_seq(w@) =~= jm_seq(xs@));
    }
    w
}

// ---------------------------------------------------------------------------
// Serialization
// ---------------------------------------------------------------------------

/// The digit character for a value in 0..9.
pub open spec fn digit_char(d: int) -> char {
    if d == 0 {
        '0'
    } else if d == 1 {
        '1'
    } else if d == 2 {
        '2'
    } else if d == 3 {
        '3'
    } else if d == 4 {
        '4'
    } else if d == 5 {
        '5'
    } else if d == 6 {
        '6'
    } else if d == 7 {
        '7'
    } else if d == 8 {
        '8'
    } else {
        '9'
    }
}

/// The value of a digit character, and -1 for any other character.
pub open spec fn dval(c: char) -> int {
    if c == '0' {
        0
    } else if c == '1' {
        1
    } else if c == '2' {
        2
    } else if c == '3' {
        3
    } else if c == '4' {
        4
    } else if c == '5' {
        5
    } else if c == '6' {
        6
    } else if c == '7' {
        7
    } else if c == '8' {
        8
    } else if c == '9' {
        9
    } else {
        -1
    }
}

pub open spec fn is_digit(c: char) -> bool {
    dval(c) >= 0
}

/// Decimal digits of a non-negative number, most significant first.
pub open spec fn dseq(n: int) -> Seq<char>
    decreases n,
{
    if n < 10 {
        seq![digit_char(n)]
    } else {
        dseq(n / 10).push(digit_char(n % 10))
    }
}

/// The canonical text of an integer.
pub open spec fn int_chars(n: int) -> Seq<char> {
    if n < 0 {
        seq!['-'] + dseq(-n)
    } else {
        dseq(n)
    }
}

/// How one character of a string is rendered inside quotes.
pub open spec fn esc_char(c: char) -> Seq<char> {
    if c == '"' {
        seq!['\\', '"']
    } else if c == '\\' {
        seq!['\\', '\\']
    } else {
        seq![c]
    }
}

/// How a whole string body is rendered inside quotes.
pub open spec fn esc(s: Seq<char>) -> Seq<char>
    decreases s.len(),
{
    if s.len() == 0 {
        Seq::empty()
    } else {
        esc(s.drop_last()) + esc_char(s.last())
    }
}

/// The canonical text of a document.
pub open spec fn ser(v: Json) -> Seq<char>
    decreases v, 0int,
{
    match v {
        Json::Null => "null"@,
        Json::Bool(b) => if b {
            "true"@
        } else {
            "false"@
        },
        Json::Int(n) => int_chars(n),
        Json::Str(s) => seq!['"'] + esc(s) + seq!['"'],
        Json::Arr(a) => seq!['['] + ser_items(a, a.len() as int) + seq![']'],
        Json::Obj(o) => seq!['{'] + ser_members(o, o.len() as int) + seq!['}'],
    }
}

/// The rendered first `i` elements of an array body, commas between them.
pub open spec fn ser_items(a: Seq<Json>, i: int) -> Seq<char>
    decreases a, i,
{
    if i <= 0 || i > a.len() {
        Seq::empty()
    } else if i == 1 {
        ser(a[0])
    } else {
        ser_items(a, i - 1) + seq![','] + ser(a[i - 1])
    }
}

/// The rendered first `i` members of an object body, commas between them.
pub open spec fn ser_members(o: Seq<(Seq<char>, Json)>, i: int) -> Seq<char>
    decreases o, i,
{
    if i <= 0 || i > o.len() {
        Seq::empty()
    } else if i == 1 {
        seq!['"'] + esc(o[0].0) + seq!['"', ':'] + ser(o[0].1)
    } else {
        ser_members(o, i - 1) + seq![','] + seq!['"'] + esc(o[i - 1].0) + seq!['"', ':'] + ser(
            o[i - 1].1,
        )
    }
}

/// Appends the decimal digits of `n`.
fn write_digits(n: u64, out: &mut String)
    ensures
        final(out)@ == old(out)@ + dseq(n as int),
    decreases n,
{
    if n >= 10 {
        write_digits(n / 10, out);
    }
    let d = n % 10;
    proof {
        reveal_strlit("0");
        reveal_strlit("1");
        reveal_strlit("2");
        reveal_strlit("3");
        reveal_strlit("4");
        reveal_strlit("5");
        reveal_strlit("6");
        reveal_strlit("7");
        reveal_strlit("8");
        reveal_strlit("9");
    }
    if d == 0 {
        out.append("0");
    } else if d == 1 {
        out.append("1");
    } else if d == 2 {
        out.append("2");
    } else if d == 3 {
        out.append("3");
    } else if d == 4 {
        out.append("4");
    } else if d == 5 {
        out.append("5");
    } else if d == 6 {
        out.append("6");
    } else if d == 7 {
        out.append("7");
    } else if d == 8 {
        out.append("8");
    } else {
        out.append("9");
    }
    proof {
        if n < 10 {
            assert(dseq(n as int) =~= seq![digit_char(n as int)]);
        }
        assert(out@ =~= old(out)@ + dseq(n as int));
    }
}

/// Appends the quoted-string rendering of `s` (without the quotes).
fn write_escaped(s: &str, out: &mut String)
    ensures
        final(out)@ == old(out)@ + esc(s@),
{
    let n = s.unicode_len();
    let mut i: usize = 0;
    proof {
        assert(s@.take(0) =~= Seq::<char>::empty());
    }
    while i < n
        invariant
            n == s@.len(),
            i <= n,
            out@ == old(out)@ + esc(s@.take(i as int)),
        decreases n - i,
    {
        let c = s.get_char(i);
        if c == '"' {
            out.append("\\\"");
            proof {
                reveal_strlit("\\\"");
            }
        } else if c == '\\' {
            out.append("\\\\");
            proof {
                reveal_strlit("\\\\");
            }
        } else {
            let piece = s.substring_char(i, i + 1);
            out.append(piece);
            proof {
                assert(piece@ =~= seq![s@[i as int]]);
            }
        }
        proof {
            assert(s@.take(i + 1).drop_last() =~= s@.take(i as int));
            assert(s@.take(i + 1).last() == s@[i as int]);
            assert(out@ =~= old(out)@ + esc(s@.take(i + 1)));
        }
        i += 1;
    }
    proof {
        assert(s@.take(n as int) =~= s@);
    }
}

/// Appends the canonical text of `v`: what the cache writes to disk and
/// what `ser` promises.
#[verifier::loop_isolation(false)]
pub fn write_value(v: &JsonValue, out: &mut String)
    ensures
        final(out)@ == old(out)@ + ser(jm(*v)),
    decreases *v,
{
    match v {
        JsonValue::Null => {
            out.append("null");
        },
        JsonValue::Bool(b) => {
            if *b {
                out.append("true");
            } else {
                out.append("false");
            }
        },
        JsonValue::Int(x) => {
            let xv = *x;
            if xv < 0 {
                out.append("-");
                proof {
                    reveal_strlit("-");
                }
                let abs: u64 = ((-(xv + 1)) as u64) + 1;
                write_digits(abs, out);
                proof {
                    assert(abs as int == -(xv as int));
                    assert(out@ =~= old(out)@ + int_chars(xv as int));
                }
            } else {
                write_digits(xv as u64, out);
            }
        },
        JsonValue::Str(s) => {
            out.append("\"");
            write_escaped(s.as_str(), out);
            out.append("\"");
            proof {
                reveal_strlit("\"");
                assert(out@ =~= old(out)@ + ser(jm(*v)));
            }
        },
        JsonValue::Arr(a) => {
            out.append("[");
            let ghost items = jm_seq(a@);
            proof {
                reveal_strlit("[");
                reveal_strlit("]");
                reveal_strlit(",");
                lemma_jm_seq_len(a@);
            }
            let n = a.len();
            let mut i: usize = 0;
            while i < n
                invariant
                    n == a.len(),
                    i <= n,
                    items == jm_seq(a@),
                    items.len() == n,
                    ","@ == seq![','],
                    out@ == old(out)@ + seq!['['] + ser_items(items, i as int),
                decreases n - i,
            {
                if i > 0 {
                    out.append(",");
                }
                proof {
                    assert(decreases_to!(*v => *a));
                    assert(decreases_to!(*a => a@[i as int]));
                }
                write_value(&a[i], out);
                proof {
                    lemma_jm_seq_index(a@, i as int);
                    assert(out@ =~= old(out)@ + seq!['['] + ser_items(items, i + 1));
                }
                i += 1;
            }
            out.append("]");
            proof {
                assert(out@ =~= old(out)@ + ser(jm(*v)));
            }
        },
        JsonValue::Obj(o) => {
            out.append("{");
            let ghost mems = jm_obj(o@);
            proof {
                reveal_strlit("{");
                reveal_strlit("}");
                reveal_strlit(",");
                reveal_strlit("\"");
                reveal_strlit("\":");
                lemma_jm_obj_len(o@);
            }
            let n = o.len();
            let mut i: usize = 0;
            while i < n
                invariant
                    n == o.len(),
                    i <= n,
                    mems == jm_obj(o@),
                    mems.len() == n,
                    ","@ == seq![','],
                    "\""@ == seq!['"'],
                    "\":"@ == seq!['"', ':'],
                    out@ == old(out)@ + seq!['{'] + ser_members(mems, i as int),
                decreases n - i,
            {
                if i > 0 {
                    out.append(",");
                }
                out.append("\"");
                write_escaped(o[i].0.as_str(), out);
                out.append("\":");
                proof {
                    assert(decreases_to!(*v => *o));
                    assert(decreases_to!(*o => o@[i as int]));
                    assert(decreases_to!(o@[i as int] => o@[i as int].1));
                }
                write_value(&o[i].1, out);
                proof {
                    lemma_jm_obj_index(o@, i as int);
                    assert(out@ =~= old(out)@ + seq!['{'] + ser_members(mems, i + 1));
                }
                i += 1;
            }
            out.append("}");
            proof {
                assert(out@ =~= old(out)@ + ser(jm(*v)));
            }
        },
    }
}

/// The canonical text of a whole document as a fresh string.
pub fn to_text(v: &JsonValue) -> (r: String)
    ensures
        r@ == ser(jm(*v)),
{
    let mut out = String::new();
    write_value(v, &mut out);
    out
}

} // verus!
