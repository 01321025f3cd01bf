//! The DSL reader: statements, definition blocks, header lines, data lines
//! and typed field values.
use vstd::prelude::*;
use crate::structs::{key_pos, lemma_key_pos, has_key, lemma_has_key, row_key, pk_name, Value, ValueModel, HeaderField, Row, Table, TableData, canonical_key, canonical_keys, join_keys, views_of, model_of, opt_view, pk_pos, lemma_pk_pos, row_fits, rows_fit, kw_sindex_chars, kw_index_chars, kw_gindex_chars, kw_index, kw_gindex, kw_sindex};
use crate::text::{chars_eq, chars_of, string_of, push_int, push_all, trim, trim_start, trim_end, trimmed, is_ws, eq_ignore_case, chars_eq_ignore_case, parse_int, parse_i64, slice_of};

verus! {

proof fn lemma_views_take(vs: Seq<Value>, i: int)
    requires
        0 <= i < vs.len(),
    ensures
        views_of(vs.take(i + 1)) == views_of(vs.take(i)).push(model_of(vs[i])),
{
    assert(vs.take(i + 1).drop_last() == vs.take(i));
}

proof fn lemma_views_len_prefix(vs: Seq<Value>, k: int)
    requires
        0 <= k <= vs.len(),
    ensures
        views_of(vs).len() == vs.len(),
        views_of(vs.take(k)) == views_of(vs).take(k),
    decreases vs.len(),
{
    if vs.len() > 0 {
        if k == vs.len() {
            assert(vs.take(k) == vs);
            lemma_views_len_prefix(vs.drop_last(), k - 1);
            assert(views_of(vs).take(k) == views_of(vs));
        } else {
            assert(vs.drop_last().take(k) == vs.take(k));
            lemma_views_len_prefix(vs.drop_last(), k);
            assert(views_of(vs).take(k) == views_of(vs.drop_last()).take(k));
        }
    } else {
        assert(vs.take(k) == vs);
    }
}

proof fn lemma_keys_none_extends(vs: Seq<ValueModel>, k: int)
    requires
        0 <= k <= vs.len(),
        canonical_keys(vs.take(k)) is None,
    ensures
        canonical_keys(vs) is None,
    decreases vs.len(),
{
    if k == vs.len() {
        assert(vs.take(k) == vs);
    } else {
        assert(vs.drop_last().take(k) == vs.take(k));
        lemma_keys_none_extends(vs.drop_last(), k);
    }
}

/// Appends the canonical key of `value` to `out`; `false` when it has none.
fn push_key(value: &Value, out: &mut Vec<char>) -> (ok: bool)
    ensures
        ok == (canonical_key(value@) is Some),
        ok ==> final(out)@ == old(out)@ + canonical_key(value@)->0,
    decreases value,
{
    match value {
        Value::String(s) => {
            let c = chars_of(s.as_str());
            push_all(out, &c);
            true
        },
        Value::Integer(i) => {
            push_int(*i, out);
            true
        },
        Value::Tuple(vs) => {
            out.push('(');
            let ghost start = out@;
            let mut i: usize = 0;
            while i < vs.len()
                invariant
                    *value == Value::Tuple(*vs),
                    i <= vs@.len(),
                    canonical_keys(views_of(vs@.take(i as int))) is Some,
                    out@ == start + join_keys(canonical_keys(views_of(vs@.take(i as int)))->0),
                    canonical_keys(views_of(vs@.take(i as int)))->0.len() == i,
                decreases vs@.len() - i,
            {
                proof {
                    lemma_views_take(vs@, i as int);
                }
                let ghost ks = canonical_keys(views_of(vs@.take(i as int)))->0;
                if i > 0 {
                    out.push(',');
                }
                assert(decreases_to!(value => vs));
                assert(decreases_to!(*vs => vs@));
                assert(decreases_to!(vs@ => vs@[i as int]));
                if !push_key(&vs[i], out) {
                    proof {
                        lemma_views_len_prefix(vs@, i + 1);
                        lemma_keys_none_extends(views_of(vs@), i + 1);
                    }
                    return false;
                }
                proof {
                    let k = canonical_key(vs@[i as int]@);
                    let ms = views_of(vs@.take(i as int));
                    assert(ms.push(model_of(vs@[i as int])).drop_last() == ms);
                    assert(ks.push(k->0).drop_last() == ks);
                    if i == 0 {
                        assert(ks.push(k->0)[0] == k->0);
                    }
                }
                i = i + 1;
            }
            assert(vs@.take(vs@.len() as int) == vs@);
            out.push(')');
            true
        },
        Value::Reference { .. } => false,
        Value::Null => false,
    }
}

/// The canonical key string of a value; references and `Null` are refused.
pub fn value_to_string_key(value: &Value) -> (r: Result<String, String>)
    ensures
        match r {
            Ok(k) => canonical_key(value@) == Some(k@),
            Err(_) => canonical_key(value@) is None,
        },
{
    let mut out: Vec<char> = Vec::new();
    if push_key(value, &mut out) {
        assert(out@ == Seq::<char>::empty() + canonical_key(value@)->0);
        Ok(string_of(&out))
    } else {
        match value {
            Value::Reference { .. } => Err("Reference cannot be used as a direct table key.".to_string()),
            _ => Err("Null cannot be used as a table key.".to_string()),
        }
    }
}

/// State of the field splitter: finished parts, the part being read,
/// whether a `"` is open, and the parenthesis depth.
pub type SplitState = (Seq<Seq<char>>, Seq<char>, bool, nat);

pub open spec fn split_step(st: SplitState, c: char) -> SplitState {
    let (parts, cur, q, lvl) = st;
    if c == '"' {
        (parts, cur.push(c), !q, lvl)
    } else if c == '(' && !q {
        (parts, cur.push(c), q, lvl + 1)
    } else if c == ')' && !q {
        (parts, cur.push(c), q, if lvl > 0 { (lvl - 1) as nat } else { 0 })
    } else if c == ',' && !q && lvl == 0 {
        (parts.push(trim(cur)), Seq::empty(), q, lvl)
    } else {
        (parts, cur.push(c), q, lvl)
    }
}

pub open spec fn split_run(s: Seq<char>) -> SplitState
    decreases s.len(),
{
    if s.len() == 0 {
        (Seq::empty(), Seq::empty(), false, 0)
    } else {
        split_step(split_run(s.drop_last()), s.last())
    }
}

/// The trimmed pieces of `s` between commas that stand outside quotes and
/// parentheses.
pub open spec fn split_top(s: Seq<char>) -> Seq<Seq<char>> {
    let st = split_run(s);
    st.0.push(trim(st.1))
}

pub proof fn lemma_trim_len(s: Seq<char>)
    ensures
        trim(s).len() <= s.len(),
{
    lemma_trim_start_len(s);
    lemma_trim_end_len(trim_start(s));
}

proof fn lemma_trim_start_len(s: Seq<char>)
    ensures
        trim_start(s).len() <= s.len(),
    decreases s.len(),
{
    if s.len() > 0 && is_ws(s[0]) {
        lemma_trim_start_len(s.drop_first());
    }
}

proof fn lemma_trim_end_len(s: Seq<char>)
    ensures
        trim_end(s).len() <= s.len(),
    decreases s.len(),
{
    if s.len() > 0 && is_ws(s.last()) {
        lemma_trim_end_len(s.drop_last());
    }
}

proof fn lemma_split_run_len(s: Seq<char>)
    ensures
        split_run(s).1.len() <= s.len(),
        forall|j: int| 0 <= j < split_run(s).0.len() ==> (#[trigger] split_run(s).0[j]).len() <= s.len(),
    decreases s.len(),
{
    if s.len() > 0 {
        lemma_split_run_len(s.drop_last());
        lemma_trim_len(split_run(s.drop_last()).1);
    }
}

pub proof fn lemma_split_top_len(s: Seq<char>)
    ensures
        forall|j: int| 0 <= j < split_top(s).len() ==> (#[trigger] split_top(s)[j]).len() <= s.len(),
{
    lemma_split_run_len(s);
    lemma_trim_len(split_run(s).1);
}

/// Splits `v` at commas outside quotes and parentheses, trimming each piece.
pub fn split_top_level(v: &[char]) -> (r: Vec<Vec<char>>)
    ensures
        r@.len() == split_top(v@).len(),
        forall|j: int| 0 <= j < r@.len() ==> (#[trigger] r@[j])@ == split_top(v@)[j],
{
    let mut parts: Vec<Vec<char>> = Vec::new();
    let mut cur: Vec<char> = Vec::new();
    let mut q = false;
    let mut lvl: usize = 0;
    let mut i: usize = 0;
    while i < v.len()
        invariant
            i <= v@.len(),
            lvl <= i,
            ({
                let st = split_run(v@.take(i as int));
                &&& parts@.len() == st.0.len()
                &&& forall|j: int| 0 <= j < parts@.len() ==> (#[trigger] parts@[j])@ == st.0[j]
                &&& cur@ == st.1
                &&& q == st.2
                &&& lvl == st.3
            }),
        decreases v@.len() - i,
    {
        assert(v@.take(i + 1).drop_last() == v@.take(i as int));
        let c = v[i];
        if c == '"' {
            cur.push(c);
            q = !q;
        } else if c == '(' && !q {
            cur.push(c);
            lvl = lvl + 1;
        } else if c == ')' && !q {
            cur.push(c);
            if lvl > 0 {
                lvl = lvl - 1;
            }
        } else if c == ',' && !q && lvl == 0 {
            let t = trimmed(&cur);
            parts.push(t);
            cur = Vec::new();
        } else {
            cur.push(c);
        }
        i = i + 1;
    }
    assert(v@.take(v@.len() as int) == v@);
    let t = trimmed(&cur);
    parts.push(t);
    parts
}

pub open spec fn kw_null() -> Seq<char> {
    seq!['n', 'u', 'l', 'l']
}

pub open spec fn kw_string() -> Seq<char> {
    seq!['s', 't', 'r', 'i', 'n', 'g']
}

pub open spec fn kw_integer() -> Seq<char> {
    seq!['i', 'n', 't', 'e', 'g', 'e', 'r']
}

pub open spec fn kw_boolean() -> Seq<char> {
    seq!['b', 'o', 'o', 'l', 'e', 'a', 'n']
}

pub open spec fn kw_true() -> Seq<char> {
    seq!['t', 'r', 'u', 'e']
}

pub open spec fn kw_false() -> Seq<char> {
    seq!['f', 'a', 'l', 's', 'e']
}

/// Position of the first `::` in `s`, or `-1`.
pub open spec fn dc_pos(s: Seq<char>) -> int
    decreases s.len(),
{
    if s.len() < 2 {
        -1
    } else {
        let p = dc_pos(s.drop_last());
        if p >= 0 {
            p
        } else if s[s.len() - 2] == ':' && s.last() == ':' {
            s.len() - 2
        } else {
            -1
        }
    }
}

proof fn lemma_dc_pos(s: Seq<char>)
    ensures
        -1 <= dc_pos(s),
        dc_pos(s) >= 0 ==> dc_pos(s) <= s.len() - 2,
        dc_pos(s) >= 0 ==> s[dc_pos(s)] == ':' && s[dc_pos(s) + 1] == ':',
        forall|j: int|
            0 <= j < s.len() - 1 && (dc_pos(s) < 0 || j < dc_pos(s)) ==> !(#[trigger] s[j] == ':' && s[j
                + 1] == ':'),
    decreases s.len(),
{
    if s.len() >= 2 {
        lemma_dc_pos(s.drop_last());
        assert forall|j: int| 0 <= j < s.len() - 1 implies s[j] == s.drop_last()[j] by {}
    }
}

/// Finds the first `::` in `v`.
pub fn find_double_colon(v: &[char]) -> (r: Option<usize>)
    ensures
        match r {
            Some(p) => p == dc_pos(v@) && p + 2 <= v@.len(),
            None => dc_pos(v@) == -1,
        },
{
    proof {
        lemma_dc_pos(v@);
    }
    let mut i: usize = 0;
    while i < v.len() && i + 1 < v.len()
        invariant
            i <= v@.len(),
            forall|j: int| 0 <= j < i && j < v@.len() - 1 ==> !(#[trigger] v@[j] == ':' && v@[j + 1] == ':'),
            -1 <= dc_pos(v@),
            dc_pos(v@) >= 0 ==> dc_pos(v@) <= v@.len() - 2,
            dc_pos(v@) >= 0 ==> v@[dc_pos(v@)] == ':' && v@[dc_pos(v@) + 1] == ':',
            forall|j: int|
                0 <= j < v@.len() - 1 && (dc_pos(v@) < 0 || j < dc_pos(v@)) ==> !(#[trigger] v@[j] == ':'
                    && v@[j + 1] == ':'),
        decreases v@.len() - i,
    {
        if v[i] == ':' && v[i + 1] == ':' {
            return Some(i);
        }
        i = i + 1;
    }
    None
}

pub open spec fn is_quoted(t: Seq<char>) -> bool {
    t.len() >= 2 && t[0] == '"' && t.last() == '"'
}

/// `t` without one pair of surrounding double quotes.
pub open spec fn unquote(t: Seq<char>) -> Seq<char> {
    if is_quoted(t) {
        t.subrange(1, t.len() - 1)
    } else {
        t
    }
}

pub open spec fn is_tuple_text(t: Seq<char>) -> bool {
    t.len() >= 2 && t[0] == '(' && t.last() == ')'
}

/// The element texts of a tuple written as `t`.
pub open spec fn tuple_elems(t: Seq<char>) -> Seq<Seq<char>> {
    let inner = t.subrange(1, t.len() - 1);
    if inner.len() == 0 {
        Seq::empty()
    } else {
        split_top(inner)
    }
}

pub open spec fn hint_is(hint: Option<Seq<char>>, kw: Seq<char>) -> bool {
    hint matches Some(h) && eq_ignore_case(h, kw)
}

/// A value read with no type hint: an integer, a boolean word, or text with
/// one pair of surrounding double quotes removed.
pub open spec fn plain_value(t: Seq<char>) -> ValueModel {
    match parse_int(t) {
        Some(i) => ValueModel::Int(i),
        None => if eq_ignore_case(t, kw_true()) {
            ValueModel::Str(kw_true())
        } else if eq_ignore_case(t, kw_false()) {
            ValueModel::Str(kw_false())
        } else if is_single_quoted(t) {
            ValueModel::Str(unescape_quotes(t.subrange(1, t.len() - 1)))
        } else {
            ValueModel::Str(unquote(t))
        },
    }
}

pub open spec fn is_single_quoted(t: Seq<char>) -> bool {
    t.len() >= 2 && t[0] == '\'' && t.last() == '\''
}

/// `s` with each doubled single quote `''` read as one `'`.
pub open spec fn unescape_quotes(s: Seq<char>) -> Seq<char>
    decreases s.len(),
{
    if s.len() == 0 {
        s
    } else if s.len() >= 2 && s[0] == '\'' && s[1] == '\'' {
        seq!['\''] + unescape_quotes(s.skip(2))
    } else {
        seq![s[0]] + unescape_quotes(s.skip(1))
    }
}

fn unescaped(s: &[char]) -> (r: Vec<char>)
    ensures
        r@ == unescape_quotes(s@),
{
    let mut out: Vec<char> = Vec::new();
    let mut i: usize = 0;
    assert(s@.skip(0) == s@);
    assert(out@ + unescape_quotes(s@) == unescape_quotes(s@));
    while i < s.len()
        invariant
            i <= s@.len(),
            out@ + unescape_quotes(s@.skip(i as int)) == unescape_quotes(s@),
        decreases s@.len() - i,
    {
        let ghost rest = s@.skip(i as int);
        if i + 1 < s.len() && s[i] == '\'' && s[i + 1] == '\'' {
            assert(rest.skip(2) == s@.skip(i + 2));
            out.push('\'');
            assert(out@ + unescape_quotes(s@.skip(i + 2)) == unescape_quotes(s@));
            i = i + 2;
        } else {
            assert(rest.skip(1) == s@.skip(i + 1));
            out.push(s[i]);
            assert(out@ + unescape_quotes(s@.skip(i + 1)) == unescape_quotes(s@));
            i = i + 1;
        }
    }
    assert(s@.skip(i as int).len() == 0);
    assert(out@ + Seq::<char>::empty() == out@);
    out
}

/// `Type::Key` read as a reference, when both sides are non-empty.
pub open spec fn reference_value(t: Seq<char>) -> Option<ValueModel> {
    let p = dc_pos(t);
    if p > 0 && p + 2 < t.len() {
        let right = t.subrange(p + 2, t.len() as int);
        let key = match parse_int(right) {
            Some(i) => ValueModel::Int(i),
            None => ValueModel::Str(unquote(right)),
        };
        Some(ValueModel::Ref(t.subrange(0, p), Box::new(key)))
    } else {
        None
    }
}

/// What a type hint makes of `t`, or `None` where the hint does not apply.
pub open spec fn typed_value(t: Seq<char>, h: Seq<char>) -> Option<ValueModel> {
    if eq_ignore_case(h, kw_integer()) {
        match parse_int(t) {
            Some(i) => Some(ValueModel::Int(i)),
            None => None,
        }
    } else if eq_ignore_case(h, kw_boolean()) {
        if eq_ignore_case(t, kw_true()) {
            Some(ValueModel::Str(kw_true()))
        } else if eq_ignore_case(t, kw_false()) {
            Some(ValueModel::Str(kw_false()))
        } else {
            None
        }
    } else if eq_ignore_case(h, kw_string()) {
        Some(ValueModel::Str(t))
    } else if dc_pos(h) >= 0 {
        reference_value(t)
    } else {
        None
    }
}

/// The value that field text `s` denotes under the type hint `hint`.
pub open spec fn parse_value(s: Seq<char>, hint: Option<Seq<char>>) -> ValueModel
    decreases s.len(), 1nat, 0nat,
{
    let t = trim(s);
    if t.len() == 0 {
        ValueModel::Str(Seq::empty())
    } else if eq_ignore_case(t, kw_null()) && !hint_is(hint, kw_string()) {
        ValueModel::Null
    } else if is_tuple_text(t) {
        ValueModel::Tuple(parse_values(tuple_elems(t), s.len()))
    } else {
        match hint {
            Some(h) => match typed_value(t, h) {
                Some(v) => v,
                None => plain_value(t),
            },
            None => plain_value(t),
        }
    }
}

/// The element texts `es` read with no hint; `n` bounds their lengths.
pub open spec fn parse_values(es: Seq<Seq<char>>, n: nat) -> Seq<ValueModel>
    decreases n, 0nat, es.len(),
{
    if es.len() == 0 {
        Seq::empty()
    } else if es.last().len() < n {
        parse_values(es.drop_last(), n).push(parse_value(es.last(), None))
    } else {
        Seq::empty()
    }
}

fn kw_chars_null() -> (r: Vec<char>)
    ensures
        r@ == kw_null(),
{
    vec!['n', 'u', 'l', 'l']
}

fn kw_chars_string() -> (r: Vec<char>)
    ensures
        r@ == kw_string(),
{
    vec!['s', 't', 'r', 'i', 'n', 'g']
}

fn kw_chars_integer() -> (r: Vec<char>)
    ensures
        r@ == kw_integer(),
{
    vec!['i', 'n', 't', 'e', 'g', 'e', 'r']
}

fn kw_chars_boolean() -> (r: Vec<char>)
    ensures
        r@ == kw_boolean(),
{
    vec!['b', 'o', 'o', 'l', 'e', 'a', 'n']
}

fn kw_chars_true() -> (r: Vec<char>)
    ensures
        r@ == kw_true(),
{
    vec!['t', 'r', 'u', 'e']
}

fn kw_chars_false() -> (r: Vec<char>)
    ensures
        r@ == kw_false(),
{
    vec!['f', 'a', 'l', 's', 'e']
}

fn unquoted(t: &[char]) -> (r: Vec<char>)
    ensures
        r@ == unquote(t@),
{
    if t.len() >= 2 && t[0] == '"' && t[t.len() - 1] == '"' {
        slice_of(t, 1, t.len() - 1)
    } else {
        slice_of(t, 0, t.len())
    }
}

fn plain_value_of(t: &[char]) -> (r: Value)
    ensures
        r@ == plain_value(t@),
{
    match parse_i64(t) {
        Some(i) => Value::Integer(i),
        None => {
            if chars_eq_ignore_case(t, &kw_chars_true()) {
                Value::String(string_of(&kw_chars_true()))
            } else if chars_eq_ignore_case(t, &kw_chars_false()) {
                Value::String(string_of(&kw_chars_false()))
            } else if t.len() >= 2 && t[0] == '\'' && t[t.len() - 1] == '\'' {
                let inner = slice_of(t, 1, t.len() - 1);
                Value::String(string_of(&unescaped(&inner)))
            } else {
                Value::String(string_of(&unquoted(t)))
            }
        },
    }
}

fn reference_value_of(t: &[char]) -> (r: Option<Value>)
    ensures
        match r {
            Some(v) => reference_value(t@) == Some(v@),
            None => reference_value(t@) is None,
        },
{
    match find_double_colon(t) {
        Some(p) => {
            if p > 0 && p < t.len() - 2 {
                let left = slice_of(t, 0, p);
                let right = slice_of(t, p + 2, t.len());
                let key = match parse_i64(&right) {
                    Some(i) => Value::Integer(i),
                    None => Value::String(string_of(&unquoted(&right))),
                };
                let ghost km = key@;
                let ghost rt = t@.subrange(p + 2, t@.len() as int);
                assert(right@ == rt);
                assert(km == match parse_int(rt) {
                    Some(i) => ValueModel::Int(i),
                    None => ValueModel::Str(unquote(rt)),
                });
                let r = Value::Reference { table: string_of(&left), key: Box::new(key) };
                assert(r@ == ValueModel::Ref(left@, Box::new(km)));
                Some(r)
            } else {
                None
            }
        },
        None => None,
    }
}

fn typed_value_of(t: &[char], h: &[char]) -> (r: Option<Value>)
    ensures
        match r {
            Some(v) => typed_value(t@, h@) == Some(v@),
            None => typed_value(t@, h@) is None,
        },
{
    if chars_eq_ignore_case(h, &kw_chars_integer()) {
        match parse_i64(t) {
            Some(i) => Some(Value::Integer(i)),
            None => None,
        }
    } else if chars_eq_ignore_case(h, &kw_chars_boolean()) {
        if chars_eq_ignore_case(t, &kw_chars_true()) {
            Some(Value::String(string_of(&kw_chars_true())))
        } else if chars_eq_ignore_case(t, &kw_chars_false()) {
            Some(Value::String(string_of(&kw_chars_false())))
        } else {
            None
        }
    } else if chars_eq_ignore_case(h, &kw_chars_string()) {
        Some(Value::String(string_of(t)))
    } else if find_double_colon(h).is_some() {
        reference_value_of(t)
    } else {
        None
    }
}

pub open spec fn opt_chars(h: Option<&[char]>) -> Option<Seq<char>> {
    match h {
        Some(x) => Some(x@),
        None => None,
    }
}

/// Reads a field's text into a value under an optional type hint.
pub fn parse_value_chars(s: &[char], hint: Option<&[char]>) -> (r: Value)
    ensures
        r@ == parse_value(s@, opt_chars(hint)),
    decreases s@.len(),
{
    let t = trimmed(s);
    proof {
        lemma_trim_len(s@);
    }
    if t.len() == 0 {
        return Value::String(String::new());
    }
    let hint_string = match hint {
        Some(h) => chars_eq_ignore_case(h, &kw_chars_string()),
        None => false,
    };
    if chars_eq_ignore_case(&t, &kw_chars_null()) && !hint_string {
        return Value::Null;
    }
    if t.len() >= 2 && t[0] == '(' && t[t.len() - 1] == ')' {
        let inner = slice_of(&t, 1, t.len() - 1);
        let elems: Vec<Vec<char>> = if inner.len() == 0 {
            Vec::new()
        } else {
            split_top_level(&inner)
        };
        let ghost es = tuple_elems(t@);
        proof {
            if inner@.len() > 0 {
                lemma_split_top_len(inner@);
            }
        }
        assert(elems@.len() == es.len());
        let mut vals: Vec<Value> = Vec::new();
        let mut j: usize = 0;
        while j < elems.len()
            invariant
                j <= elems@.len(),
                elems@.len() == es.len(),
                forall|k: int| 0 <= k < elems@.len() ==> (#[trigger] elems@[k])@ == es[k],
                forall|k: int| 0 <= k < es.len() ==> (#[trigger] es[k]).len() < s@.len(),
                views_of(vals@) == parse_values(es.take(j as int), s@.len()),
            decreases elems@.len() - j,
        {
            let x = parse_value_chars(&elems[j], None);
            proof {
                assert(es.take(j + 1).drop_last() == es.take(j as int));
                assert(vals@.push(x).drop_last() == vals@);
            }
            vals.push(x);
            j = j + 1;
        }
        assert(es.take(es.len() as int) == es);
        return Value::Tuple(vals);
    }
    match hint {
        Some(h) => match typed_value_of(&t, h) {
            Some(v) => v,
            None => plain_value_of(&t),
        },
        None => plain_value_of(&t),
    }
}

/// Reads a field's text into a value under the column's type hint.
pub fn parse_value_str(s: &str, field_type_info: Option<&str>) -> (r: Value)
    ensures
        r@ == parse_value(s@, opt_str_view(field_type_info)),
{
    let sc = chars_of(s);
    match field_type_info {
        Some(h) => {
            let hc = chars_of(h);
            parse_value_chars(&sc, Some(hc.as_slice()))
        },
        None => parse_value_chars(&sc, None),
    }
}

pub open spec fn opt_str_view(h: Option<&str>) -> Option<Seq<char>> {
    match h {
        Some(x) => Some(x@),
        None => None,
    }
}

pub open spec fn slash_run(s: Seq<char>) -> (Seq<Seq<char>>, Seq<char>)
    decreases s.len(),
{
    if s.len() == 0 {
        (Seq::empty(), Seq::empty())
    } else {
        let (ps, cur) = slash_run(s.drop_last());
        if s.last() == '/' {
            (if cur.len() > 0 { ps.push(cur) } else { ps }, Seq::empty())
        } else {
            (ps, cur.push(s.last()))
        }
    }
}

/// The non-empty pieces of `s` between `/` separators.
pub open spec fn slash_parts(s: Seq<char>) -> Seq<Seq<char>> {
    let (ps, cur) = slash_run(s);
    if cur.len() > 0 {
        ps.push(cur)
    } else {
        ps
    }
}

fn slash_split(v: &[char]) -> (r: Vec<Vec<char>>)
    ensures
        r@.len() == slash_parts(v@).len(),
        forall|j: int| 0 <= j < r@.len() ==> (#[trigger] r@[j])@ == slash_parts(v@)[j],
{
    let mut parts: Vec<Vec<char>> = Vec::new();
    let mut cur: Vec<char> = Vec::new();
    let mut i: usize = 0;
    while i < v.len()
        invariant
            i <= v@.len(),
            ({
                let st = slash_run(v@.take(i as int));
                &&& parts@.len() == st.0.len()
                &&& forall|j: int| 0 <= j < parts@.len() ==> (#[trigger] parts@[j])@ == st.0[j]
                &&& cur@ == st.1
            }),
        decreases v@.len() - i,
    {
        assert(v@.take(i + 1).drop_last() == v@.take(i as int));
        if v[i] == '/' {
            if cur.len() > 0 {
                parts.push(cur);
            }
            cur = Vec::new();
        } else {
            cur.push(v[i]);
        }
        i = i + 1;
    }
    assert(v@.take(v@.len() as int) == v@);
    if cur.len() > 0 {
        parts.push(cur);
    }
    parts
}

/// Position of the first `c` in `s`, or `-1`.
pub open spec fn char_pos(s: Seq<char>, c: char) -> int
    decreases s.len(),
{
    if s.len() == 0 {
        -1
    } else {
        let p = char_pos(s.drop_last(), c);
        if p >= 0 {
            p
        } else if s.last() == c {
            s.len() - 1
        } else {
            -1
        }
    }
}

proof fn lemma_char_pos(s: Seq<char>, c: char)
    ensures
        -1 <= char_pos(s, c) < s.len(),
        char_pos(s, c) >= 0 ==> s[char_pos(s, c)] == c,
        forall|j: int| 0 <= j < s.len() && (char_pos(s, c) < 0 || j < char_pos(s, c)) ==> s[j] != c,
    decreases s.len(),
{
    if s.len() > 0 {
        lemma_char_pos(s.drop_last(), c);
        assert forall|j: int| 0 <= j < s.len() - 1 implies s[j] == s.drop_last()[j] by {}
    }
}

/// Finds the first `c` in `v`.
pub fn find_char(v: &[char], c: char) -> (r: Option<usize>)
    ensures
        match r {
            Some(p) => p == char_pos(v@, c) && p < v@.len(),
            None => char_pos(v@, c) == -1,
        },
{
    proof {
        lemma_char_pos(v@, c);
    }
    let mut i: usize = 0;
    while i < v.len()
        invariant
            i <= v@.len(),
            forall|j: int| 0 <= j < i ==> v@[j] != c,
            -1 <= char_pos(v@, c) < v@.len(),
            char_pos(v@, c) >= 0 ==> v@[char_pos(v@, c)] == c,
            forall|j: int| 0 <= j < v@.len() && (char_pos(v@, c) < 0 || j < char_pos(v@, c)) ==> v@[j] != c,
        decreases v@.len() - i,
    {
        if v[i] == c {
            return Some(i);
        }
        i = i + 1;
    }
    None
}

/// The name of a header written `part`: the text before its first `:`.
pub open spec fn header_name(part: Seq<char>) -> Seq<char> {
    let p = char_pos(part, ':');
    if p < 0 {
        trim(part)
    } else {
        trim(part.take(p))
    }
}

/// The type of a header written `part`: the text after its first `:` or
/// `::`, if not blank.
pub open spec fn header_type(part: Seq<char>) -> Option<Seq<char>> {
    let p = char_pos(part, ':');
    if p < 0 {
        None
    } else {
        let rest = if p + 1 < part.len() && part[p + 1] == ':' {
            part.skip(p + 2)
        } else {
            part.skip(p + 1)
        };
        if trim(rest).len() == 0 {
            None
        } else {
            Some(trim(rest))
        }
    }
}

pub open spec fn is_header_text(line: Seq<char>) -> bool {
    line.len() >= 1 && line[0] == '/' && line.last() == '/'
}

/// The header texts of a header line.
pub open spec fn header_texts(line: Seq<char>) -> Seq<Seq<char>> {
    if line.len() < 2 {
        Seq::empty()
    } else {
        slash_parts(line.subrange(1, line.len() - 1))
    }
}

/// A header line that parses: `/`-delimited, each header named, no name
/// twice, and at least one header unless the line is `/` or `//`.
pub open spec fn header_line_ok(line: Seq<char>) -> bool {
    let ts = header_texts(line);
    &&& is_header_text(line)
    &&& (line.len() > 2 ==> ts.len() > 0)
    &&& forall|i: int| 0 <= i < ts.len() ==> header_name(#[trigger] ts[i]).len() > 0
    &&& forall|i: int, j: int|
        0 <= i < j < ts.len() ==> header_name(#[trigger] ts[i]) != header_name(#[trigger] ts[j])
}

/// The headers match their texts, and the first one typed with an index
/// discipline, alone, is the primary key.
pub open spec fn headers_of(hs: Seq<HeaderField>, ts: Seq<Seq<char>>) -> bool {
    &&& hs.len() == ts.len()
    &&& forall|i: int|
        0 <= i < hs.len() ==> (#[trigger] hs[i]).name@ == header_name(ts[i]) && opt_view(hs[i].type_info)
            == header_type(ts[i]) && hs[i].is_primary_key == (i == pk_pos(hs))
}

fn header_of(part: &[char]) -> (r: (Vec<char>, Option<Vec<char>>))
    ensures
        r.0@ == header_name(part@),
        match r.1 {
            Some(t) => header_type(part@) == Some(t@),
            None => header_type(part@) is None,
        },
{
    match find_char(part, ':') {
        None => (trimmed(part), None),
        Some(p) => {
            let name_part = slice_of(part, 0, p);
            assert(name_part@ == part@.take(p as int));
            let rest = if p < part.len() - 1 && part[p + 1] == ':' {
                slice_of(part, p + 2, part.len())
            } else {
                slice_of(part, p + 1, part.len())
            };
            assert(rest@ == (if p + 1 < part@.len() && part@[p + 1] == ':' {
                part@.skip(p + 2)
            } else {
                part@.skip(p + 1)
            }));
            let t = trimmed(&rest);
            let ty = if t.len() == 0 {
                None
            } else {
                Some(t)
            };
            (trimmed(&name_part), ty)
        },
    }
}

pub(crate) fn is_discipline_chars(t: &[char]) -> (r: bool)
    ensures
        r == crate::structs::is_discipline(t@),
{
    chars_eq(t, &kw_sindex_chars()) || chars_eq(t, &kw_index_chars()) || chars_eq(t, &kw_gindex_chars())
}

/// Reads a header line `/h1/h2/.../hN/` into headers and the name of the
/// primary key.
pub fn parse_header_line(line: &str) -> (r: Result<(Vec<HeaderField>, Option<String>), String>)
    ensures
        r is Ok <==> header_line_ok(line@),
        r matches Ok((hs, pk)) ==> headers_of(hs@, header_texts(line@)) && opt_view(pk) == (if pk_pos(
            hs@,
        ) >= 0 {
            Some(hs@[pk_pos(hs@)].name@)
        } else {
            None::<Seq<char>>
        }),
{
    let v = chars_of(line);
    if !(v.len() >= 1 && v[0] == '/' && v[v.len() - 1] == '/') {
        return Err(crate::text::message("Header line must start and end with '/': ", line));
    }
    let mut headers: Vec<HeaderField> = Vec::new();
    let mut pk: Option<String> = None;
    if v.len() <= 2 {
        return Ok((headers, pk));
    }
    let inner = slice_of(&v, 1, v.len() - 1);
    let parts = slash_split(&inner);
    let ghost ts = header_texts(line@);
    assert(ts == slash_parts(inner@));
    if parts.len() == 0 {
        return Err(crate::text::message("Header line holds no header: ", line));
    }
    let mut names: Vec<Vec<char>> = Vec::new();
    let mut i: usize = 0;
    while i < parts.len()
        invariant
            i <= parts@.len(),
            parts@.len() == ts.len(),
            ts == header_texts(line@),
            is_header_text(line@),
            line@.len() > 2,
            ts.len() > 0,
            forall|k: int| 0 <= k < parts@.len() ==> (#[trigger] parts@[k])@ == ts[k],
            headers_of(headers@, ts.take(i as int)),
            names@.len() == i,
            forall|k: int| 0 <= k < i ==> (#[trigger] names@[k])@ == headers@[k].name@,
            forall|k: int| 0 <= k < i ==> header_name(#[trigger] ts[k]).len() > 0,
            forall|a: int, b: int| 0 <= a < b < i ==> header_name(#[trigger] ts[a]) != header_name(#[trigger] ts[b]),
            opt_view(pk) == (if pk_pos(headers@) >= 0 {
                Some(headers@[pk_pos(headers@)].name@)
            } else {
                None::<Seq<char>>
            }),
            -1 <= pk_pos(headers@) < headers@.len(),
        decreases parts@.len() - i,
    {
        let (name, ty) = header_of(&parts[i]);
        if name.len() == 0 {
            return Err(crate::text::message("Header field name cannot be empty: ", line));
        }
        let mut k: usize = 0;
        while k < i
            invariant
                k <= i,
                i < parts@.len(),
                parts@.len() == ts.len(),
                ts == header_texts(line@),
                headers@.len() == i,
                names@.len() == i,
                forall|m: int| 0 <= m < i ==> (#[trigger] names@[m])@ == headers@[m].name@,
                headers_of(headers@, ts.take(i as int)),
                forall|m: int| 0 <= m < k ==> header_name(#[trigger] ts[m]) != name@,
                name@ == header_name(ts[i as int]),
                forall|m: int| 0 <= m < parts@.len() ==> (#[trigger] parts@[m])@ == ts[m],
            decreases i - k,
        {
            if chars_eq(&names[k], &name) {
                assert(headers@[k as int].name@ == header_name(ts.take(i as int)[k as int]));
                assert(ts.take(i as int)[k as int] == ts[k as int]);
                assert(header_name(ts[k as int]) == header_name(ts[i as int]));
                assert(!header_line_ok(line@));
                return Err(crate::text::message("Duplicate header name: ", line));
            }
            assert(headers@[k as int].name@ == header_name(ts.take(i as int)[k as int]));
            assert(ts.take(i as int)[k as int] == ts[k as int]);
            k = k + 1;
        }
        let is_pk = match &ty {
            Some(t) => pk.is_none() && is_discipline_chars(t),
            None => false,
        };
        let name_str = string_of(&name);
        let h = HeaderField {
            name: name_str,
            type_info: match &ty {
                Some(t) => Some(string_of(t)),
                None => None,
            },
            is_primary_key: is_pk,
        };
        let ghost old_hs = headers@;
        if is_pk {
            pk = Some(string_of(&name));
        }
        headers.push(h);
        names.push(name);
        proof {
            lemma_pk_pos(old_hs);
            assert(headers@.drop_last() == old_hs);
            assert(ts.take(i + 1).drop_last() == ts.take(i as int));
            assert forall|m: int| 0 <= m < headers@.len() implies (#[trigger] headers@[m]).name@ == header_name(ts.take(i + 1)[m])
                && opt_view(headers@[m].type_info) == header_type(ts.take(i + 1)[m])
                && headers@[m].is_primary_key == (m == pk_pos(headers@)) by {
                if m < i {
                    assert(headers@[m] == old_hs[m]);
                    assert(ts.take(i + 1)[m] == ts.take(i as int)[m]);
                }
            }
        }
        i = i + 1;
    }
    assert(ts.take(ts.len() as int) == ts);
    Ok((headers, pk))
}

pub open spec fn field_text(parts: Seq<Seq<char>>, i: int) -> Seq<char> {
    if i < parts.len() {
        parts[i]
    } else {
        Seq::empty()
    }
}

/// A `)` outside quotes with no parenthesis open.
pub open spec fn stray_close(s: Seq<char>) -> bool
    decreases s.len(),
{
    if s.len() == 0 {
        false
    } else {
        stray_close(s.drop_last()) || (s.last() == ')' && !split_run(s.drop_last()).2 && split_run(
            s.drop_last(),
        ).3 == 0)
    }
}

/// Every `"` is closed and the parentheses outside quotes balance.
pub open spec fn balanced(s: Seq<char>) -> bool {
    !split_run(s).2 && split_run(s).3 == 0 && !stray_close(s)
}

/// A data line is well formed and has no more fields than a non-empty
/// schema has headers.
pub open spec fn data_line_fits(line: Seq<char>, hs: Seq<HeaderField>) -> bool {
    balanced(line) && !(hs.len() > 0 && split_top(line).len() > hs.len())
}

fn is_balanced(v: &[char]) -> (r: bool)
    ensures
        r == balanced(v@),
{
    let mut q = false;
    let mut lvl: usize = 0;
    let mut stray = false;
    let mut i: usize = 0;
    while i < v.len()
        invariant
            i <= v@.len(),
            lvl <= i,
            q == split_run(v@.take(i as int)).2,
            lvl == split_run(v@.take(i as int)).3,
            stray == stray_close(v@.take(i as int)),
        decreases v@.len() - i,
    {
        assert(v@.take(i + 1).drop_last() == v@.take(i as int));
        let c = v[i];
        if c == '"' {
            q = !q;
        } else if c == '(' && !q {
            lvl = lvl + 1;
        } else if c == ')' && !q {
            if lvl > 0 {
                lvl = lvl - 1;
            } else {
                stray = true;
            }
        }
        i = i + 1;
    }
    assert(v@.take(v@.len() as int) == v@);
    !q && lvl == 0 && !stray
}

/// The row a data line denotes: each header's field text read under the
/// header's type; missing trailing fields read as empty text.
pub open spec fn row_of(r: Row, line: Seq<char>, hs: Seq<HeaderField>) -> bool {
    &&& row_fits(r, hs)
    &&& forall|i: int|
        0 <= i < hs.len() ==> (#[trigger] r.fields@[i]).1@ == parse_value(
            field_text(split_top(line), i),
            opt_view(hs[i].type_info),
        )
}

/// Reads one data line into a row of the given schema.
pub fn parse_data_line(line_str: &str, headers: &[HeaderField], _header_map: &[(String, usize)]) -> (r: Result<Row, String>)
    ensures
        r is Ok <==> data_line_fits(line_str@, headers@),
        r matches Ok(row) ==> row_of(row, line_str@, headers@),
{
    let v = chars_of(line_str);
    if !is_balanced(&v) {
        return Err(crate::text::message("Unterminated quote or unbalanced parenthesis in data line: ", line_str));
    }
    let parts = split_top_level(&v);
    if parts.len() > headers.len() && headers.len() > 0 {
        return Err(crate::text::message("Data line has more fields than headers: ", line_str));
    }
    let mut fields: Vec<(String, Value)> = Vec::new();
    let mut i: usize = 0;
    let empty: Vec<char> = Vec::new();
    while i < headers.len()
        invariant
            i <= headers@.len(),
            empty@.len() == 0,
            parts@.len() == split_top(line_str@).len(),
            forall|j: int| 0 <= j < parts@.len() ==> (#[trigger] parts@[j])@ == split_top(line_str@)[j],
            fields@.len() == i,
            forall|j: int| 0 <= j < i ==> (#[trigger] fields@[j]).0@ == headers@[j].name@ && fields@[j].1@
                == parse_value(field_text(split_top(line_str@), j), opt_view(headers@[j].type_info)),
        decreases headers@.len() - i,
    {
        let text: &[char] = if i < parts.len() {
            parts[i].as_slice()
        } else {
            empty.as_slice()
        };
        let value = match &headers[i].type_info {
            Some(t) => {
                let tc = chars_of(t.as_str());
                parse_value_chars(text, Some(tc.as_slice()))
            },
            None => parse_value_chars(text, None),
        };
        fields.push((headers[i].name.clone(), value));
        i = i + 1;
    }
    Ok(Row { fields })
}

/// One statement of a document.
#[derive(Debug, PartialEq)]
pub enum DslStatement {
    Definition(String, Table),
    Update { path: String, value_str: String },
    Add { table_name: String },
    CopyStructure { source_table_name: String, source_path: String, target_table_name: String },
    Reference { source_table_name: String, source_path: String, target_table_name: String },
    Pack { table_names: Vec<String> },
}

/// A table defined by a block is well formed, keyed consistently and
/// carries the block's name.
pub open spec fn statement_ok(st: DslStatement) -> bool {
    match st {
        DslStatement::Definition(n, t) => t.wf() && t.keys_consistent() && t.name@ == n@,
        DslStatement::Update { path, value_str } => path@.len() > 0,
        DslStatement::Add { table_name } => table_name@.len() > 0,
        DslStatement::Pack { table_names } => table_names@.len() > 0,
        _ => true,
    }
}

pub open spec fn lines_view(ls: Seq<Vec<char>>) -> Seq<Seq<char>> {
    Seq::new(ls.len(), |i: int| ls[i]@)
}

/// The trimmed non-blank lines of a block.
pub open spec fn nonblank(b: Seq<Seq<char>>) -> Seq<Seq<char>>
    decreases b.len(),
{
    if b.len() == 0 {
        Seq::empty()
    } else {
        let r = nonblank(b.drop_last());
        if trim(b.last()).len() > 0 {
            r.push(trim(b.last()))
        } else {
            r
        }
    }
}

fn nonblank_lines(lines: &Vec<Vec<char>>) -> (r: Vec<Vec<char>>)
    ensures
        lines_view(r@) == nonblank(lines_view(lines@)),
{
    let mut out: Vec<Vec<char>> = Vec::new();
    let mut i: usize = 0;
    while i < lines.len()
        invariant
            i <= lines@.len(),
            lines_view(out@) == nonblank(lines_view(lines@).take(i as int)),
        decreases lines@.len() - i,
    {
        assert(lines_view(lines@).take(i + 1).drop_last() == lines_view(lines@).take(i as int));
        let t = trimmed(&lines[i]);
        if t.len() > 0 {
            out.push(t);
        }
        assert(lines_view(out@) =~= nonblank(lines_view(lines@).take(i + 1)));
        i = i + 1;
    }
    assert(lines_view(lines@).take(lines@.len() as int) == lines_view(lines@));
    out
}

/// Whether a comment (`#` or `//`) starts at position `i` of `v`.
pub open spec fn comment_at(v: Seq<char>, i: int) -> bool {
    v[i] == '#' || (i + 1 < v.len() && v[i] == '/' && v[i + 1] == '/')
}

/// Where the first comment at or after `i` starts, or the length of `v`.
pub open spec fn comment_from(v: Seq<char>, i: int) -> int
    decreases v.len() - i,
{
    if i < 0 || i >= v.len() {
        v.len() as int
    } else if comment_at(v, i) {
        i
    } else {
        comment_from(v, i + 1)
    }
}

/// The table name a name line `NAME:` gives, comments removed.
pub open spec fn block_name(line: Seq<char>) -> Option<Seq<char>> {
    let nl = trim(line.take(comment_from(line, 0)));
    if nl.len() > 0 && nl.last() == ':' {
        Some(trim(nl.take(nl.len() - 1)))
    } else {
        None
    }
}

pub open spec fn has_header(ls: Seq<Seq<char>>) -> bool {
    ls.len() >= 2 && is_header_text(ls[1])
}

/// The data lines that fit a schema.
pub open spec fn fitting_lines(ls: Seq<Seq<char>>, hs: Seq<HeaderField>) -> Seq<Seq<char>>
    decreases ls.len(),
{
    if ls.len() == 0 {
        Seq::empty()
    } else {
        let f = fitting_lines(ls.drop_last(), hs);
        if data_line_fits(ls.last(), hs) {
            f.push(ls.last())
        } else {
            f
        }
    }
}

/// The canonical key a data line gives its row.
pub open spec fn line_key(line: Seq<char>, hs: Seq<HeaderField>) -> Option<Seq<char>> {
    let p = pk_pos(hs);
    if p >= 0 {
        canonical_key(parse_value(field_text(split_top(line), p), opt_view(hs[p].type_info)))
    } else {
        None
    }
}

/// The data lines whose row has canonical key `k`, in order.
pub open spec fn lines_with_key(fl: Seq<Seq<char>>, hs: Seq<HeaderField>, k: Seq<char>) -> Seq<Seq<char>>
    decreases fl.len(),
{
    if fl.len() == 0 {
        Seq::empty()
    } else {
        let f = lines_with_key(fl.drop_last(), hs, k);
        if line_key(fl.last(), hs) == Some(k) {
            f.push(fl.last())
        } else {
            f
        }
    }
}

/// The data a block's lines give a table: its rows in order for sequential
/// data; for indexed data, under each key the row of the first line with
/// that key; for grouped data, under each key the rows of all lines with
/// that key, in order; and every usable key present.
pub open spec fn block_rows(t: Table, fl: Seq<Seq<char>>) -> bool {
    let hs = t.headers@;
    match t.data {
        TableData::Sequential(rows) => rows@.len() == fl.len() && forall|k: int|
            0 <= k < fl.len() ==> row_of(#[trigger] rows@[k], fl[k], hs),
        TableData::Indexed(es) => (forall|i: int|
            0 <= i < es@.len() ==> lines_with_key(fl, hs, (#[trigger] es@[i]).0@).len() > 0 && row_of(
                es@[i].1,
                lines_with_key(fl, hs, es@[i].0@)[0],
                hs,
            )) && forall|k: int|
            0 <= k < fl.len() && (#[trigger] line_key(fl[k], hs)) is Some ==> has_key(es@, line_key(fl[k], hs)->0),
        TableData::GroupedIndexed(gs) => (forall|i: int|
            0 <= i < gs@.len() ==> (#[trigger] gs@[i]).1@.len() == lines_with_key(fl, hs, gs@[i].0@).len() && forall|m: int|
                0 <= m < gs@[i].1@.len() ==> row_of(gs@[i].1@[m], lines_with_key(fl, hs, gs@[i].0@)[m], hs)) && forall|k: int|
            0 <= k < fl.len() && (#[trigger] line_key(fl[k], hs)) is Some ==> has_key(gs@, line_key(fl[k], hs)->0),
        TableData::RawLines(_) => false,
    }
}

proof fn lemma_rows_lines_key(rows: Seq<Row>, fl: Seq<Seq<char>>, hs: Seq<HeaderField>, k: Seq<char>)
    requires
        rows.len() == fl.len(),
        forall|j: int| 0 <= j < fl.len() ==> row_of(#[trigger] rows[j], fl[j], hs),
        forall|i: int, j: int| 0 <= i < j < hs.len() ==> (#[trigger] hs[i]).name@ != (#[trigger] hs[j]).name@,
        pk_pos(hs) >= 0,
    ensures
        rows_with_key(rows, hs[pk_pos(hs)].name@, k).len() == lines_with_key(fl, hs, k).len(),
        forall|m: int|
            0 <= m < lines_with_key(fl, hs, k).len() ==> row_of(
                #[trigger] rows_with_key(rows, hs[pk_pos(hs)].name@, k)[m],
                lines_with_key(fl, hs, k)[m],
                hs,
            ),
    decreases rows.len(),
{
    if rows.len() > 0 {
        assert forall|j: int| 0 <= j < fl.drop_last().len() implies row_of(#[trigger] rows.drop_last()[j], fl.drop_last()[j], hs) by {
            assert(rows.drop_last()[j] == rows[j]);
            assert(fl.drop_last()[j] == fl[j]);
        }
        lemma_rows_lines_key(rows.drop_last(), fl.drop_last(), hs, k);
        assert(rows.last() == rows[rows.len() - 1]);
        assert(fl.last() == fl[fl.len() - 1]);
        lemma_row_key_of_line(rows.last(), fl.last(), hs);
    }
}

pub open spec fn strings_view(v: Seq<String>) -> Seq<Seq<char>> {
    Seq::new(v.len(), |i: int| v[i]@)
}

/// A table read from the non-blank lines `ls` of a block: with a header
/// line, its headers and rows; without, the lines kept for later.
pub open spec fn block_body(t: Table, ls: Seq<Seq<char>>) -> bool {
    if has_header(ls) {
        &&& headers_of(t.headers@, header_texts(ls[1]))
        &&& block_rows(t, fitting_lines(ls.skip(2), t.headers@))
        &&& t.kind() == Some(kw_index()) ==> t.data is Indexed
        &&& t.kind() == Some(kw_gindex()) ==> t.data is GroupedIndexed
        &&& t.kind() is None || t.kind() == Some(kw_sindex()) ==> t.data is Sequential
    } else {
        &&& t.headers@.len() == 0
        &&& t.primary_key_field_name is None
        &&& t.data is RawLines
        &&& strings_view(t.data->RawLines_0@) == ls.skip(1)
    }
}

/// The text of a line before a `#` or `//` comment.
fn strip_comment(v: &[char]) -> (r: Vec<char>)
    ensures
        r@ == v@.take(comment_from(v@, 0)),
{
    let mut end: usize = 0;
    while end < v.len()
        invariant
            end <= v@.len(),
            comment_from(v@, 0) == comment_from(v@, end as int),
        ensures
            comment_from(v@, 0) == end as int,
        decreases v@.len() - end,
    {
        if v[end] == '#' {
            break;
        }
        if end + 1 < v.len() && v[end] == '/' && v[end + 1] == '/' {
            break;
        }
        end = end + 1;
    }
    slice_of(v, 0, end)
}

fn is_header_line(v: &[char]) -> (r: bool)
    ensures
        r == is_header_text(v@),
{
    v.len() >= 1 && v[0] == '/' && v[v.len() - 1] == '/'
}

/// The rows whose primary key has canonical key `k`, in order.
pub open spec fn rows_with_key(rows: Seq<Row>, pk: Seq<char>, k: Seq<char>) -> Seq<Row>
    decreases rows.len(),
{
    if rows.len() == 0 {
        Seq::empty()
    } else {
        let f = rows_with_key(rows.drop_last(), pk, k);
        if row_key(rows.last(), pk) == Some(k) {
            f.push(rows.last())
        } else {
            f
        }
    }
}

proof fn lemma_rows_with_key_none(rows: Seq<Row>, pk: Seq<char>, k: Seq<char>)
    requires
        forall|j: int| 0 <= j < rows.len() ==> row_key(#[trigger] rows[j], pk) != Some(k),
    ensures
        rows_with_key(rows, pk, k).len() == 0,
    decreases rows.len(),
{
    if rows.len() > 0 {
        assert forall|j: int| 0 <= j < rows.drop_last().len() implies row_key(#[trigger] rows.drop_last()[j], pk) != Some(k) by {
            assert(rows.drop_last()[j] == rows[j]);
        }
        lemma_rows_with_key_none(rows.drop_last(), pk, k);
        assert(rows.last() == rows[rows.len() - 1]);
    }
}

/// Keyed data holding exactly what `rows` give: each entry the first row
/// with its key, each group every row with its key in order, and every
/// usable key present.
pub open spec fn keyed_from(d: TableData, rows: Seq<Row>, pk: Seq<char>) -> bool {
    match d {
        TableData::Indexed(es) => (forall|i: int|
            0 <= i < es@.len() ==> rows_with_key(rows, pk, (#[trigger] es@[i]).0@).len() > 0 && es@[i].1
                == rows_with_key(rows, pk, es@[i].0@)[0]) && forall|k: int|
            0 <= k < rows.len() && row_key(#[trigger] rows[k], pk) is Some ==> has_key(es@, row_key(rows[k], pk)->0),
        TableData::GroupedIndexed(gs) => (forall|i: int|
            0 <= i < gs@.len() ==> (#[trigger] gs@[i]).1@ == rows_with_key(rows, pk, gs@[i].0@)) && forall|k: int|
            0 <= k < rows.len() && row_key(#[trigger] rows[k], pk) is Some ==> has_key(gs@, row_key(rows[k], pk)->0),
        _ => false,
    }
}

/// Files rows into an empty table in the shape its primary key calls for:
/// keyed tables take each row under its key (rows whose key is missing,
/// unusable or already taken are left out); other tables keep them in order.
pub fn fill_table(table: &mut Table, rows: Vec<Row>)
    requires
        old(table).wf(),
        old(table).data is Sequential,
        old(table).data->Sequential_0@.len() == 0,
        rows_fit(rows@, old(table).headers@),
    ensures
        final(table).wf(),
        final(table).keys_consistent(),
        final(table).name == old(table).name,
        final(table).headers == old(table).headers,
        final(table).header_map == old(table).header_map,
        final(table).primary_key_field_name == old(table).primary_key_field_name,
        old(table).kind() is None || old(table).kind() == Some(kw_sindex()) ==> final(table).data is Sequential
            && final(table).data->Sequential_0@ == rows@,
        old(table).kind() == Some(kw_index()) ==> final(table).data is Indexed && keyed_from(final(table).data, rows@, pk_name(*old(table))),
        old(table).kind() == Some(kw_gindex()) ==> final(table).data is GroupedIndexed && keyed_from(final(table).data, rows@, pk_name(*old(table))),
{
    let ghost hs = table.headers@;
    let ghost name = table.name@;
    let ghost t0 = *table;
    let (keyed, grouped) = match table.get_index_type() {
        Some(t) => {
            let tc = chars_of(t);
            (chars_eq(&tc, &kw_index_chars()), chars_eq(&tc, &kw_gindex_chars()))
        },
        None => (false, false),
    };
    proof {
        lemma_pk_pos(table.headers@);
    }
    if keyed {
        table.data = TableData::Indexed(Vec::new());
    } else if grouped {
        table.data = TableData::GroupedIndexed(Vec::new());
    }
    assert(table.wf());
    assert(table.keys_consistent());
    let ghost rows0 = rows@;
    let ghost pk = pk_name(t0);
    let ghost mut c: int = 0;
    let mut rows = rows;
    proof {
        crate::structs::lemma_pk_pos(hs);
    }
    assert(rows@ == rows0.skip(0));
    while rows.len() > 0
        invariant
            0 <= c <= rows0.len(),
            rows@ == rows0.skip(c),
            pk == pk_name(*table),
            table.kind() == t0.kind(),
            t0.kind() is None || t0.kind() == Some(kw_sindex()) ==> table.data is Sequential && table.data->Sequential_0@ == rows0.take(c),
            t0.kind() == Some(kw_index()) ==> table.data is Indexed && keyed_from(table.data, rows0.take(c), pk),
            t0.kind() == Some(kw_gindex()) ==> table.data is GroupedIndexed && keyed_from(table.data, rows0.take(c), pk),
            table.wf(),
            table.keys_consistent(),
            table.name == t0.name,
            table.headers == t0.headers,
            table.header_map == t0.header_map,
            table.primary_key_field_name == t0.primary_key_field_name,
            table.headers@ == hs,
            rows_fit(rows@, hs),
            keyed ==> table.kind() == Some(kw_index()),
            grouped ==> table.kind() == Some(kw_gindex()),
            !keyed && !grouped ==> table.data is Sequential && (table.kind() is None || table.kind() == Some(kw_sindex())),
        decreases rows@.len(),
    {
        assert(c < rows0.len());
        let ghost before = rows@;
        let ghost tb = *table;
        let row = rows.remove(0);
        assert(row == before[0]);
        assert(row == rows0[c]);
        assert(row_fits(row, hs));
        assert forall|m: int| 0 <= m < rows@.len() implies row_fits(#[trigger] rows@[m], hs) by {
            assert(rows@[m] == before[m + 1]);
        }
        assert(rows@ == rows0.skip(c + 1));
        if keyed || grouped {
            let ghost rk = row_key(row, pk);
            let r = table.add_row(row);
            proof {
                let rr = rows0.take(c);
                assert(rows0.take(c + 1) == rr.push(row));
                assert forall|kk: Seq<char>| #[trigger] rows_with_key(rr.push(row), pk, kk) == (if rk == Some(kk) {
                    rows_with_key(rr, pk, kk).push(row)
                } else {
                    rows_with_key(rr, pk, kk)
                }) by {
                    assert(rr.push(row).drop_last() == rr);
                    assert(rr.push(row).last() == row);
                }
                assert forall|k: int| 0 <= k < c ==> #[trigger] rr[k] == rows0[k] by {}
                if rk is Some {
                    let kk = rk->0;
                    let dold = if keyed { tb.data->Indexed_0@.len() } else { tb.data->GroupedIndexed_0@.len() };
                    if keyed {
                        lemma_has_key(tb.data->Indexed_0@, kk);
                    } else {
                        lemma_has_key(tb.data->GroupedIndexed_0@, kk);
                    }
                    let absent = if keyed { !has_key(tb.data->Indexed_0@, kk) } else { !has_key(tb.data->GroupedIndexed_0@, kk) };
                    if absent {
                        assert forall|j: int| 0 <= j < rr.len() implies row_key(#[trigger] rr[j], pk) != Some(kk) by {
                            assert(rr[j] == rows0[j]);
                        }
                        lemma_rows_with_key_none(rr, pk, kk);
                    }
                }
                if keyed {
                    let es0 = tb.data->Indexed_0@;
                    let es = table.data->Indexed_0@;
                    if r is Ok {
                        let kk = rk->0;
                        let (p, ks) = choose|p: int, ks: String| 0 <= p <= es0.len() && ks@ == rk->0 && es == es0.insert(p, (ks, row));
                        assert(es[p].0@ == rk->0);
                        lemma_has_key(es0, kk);
                        assert forall|kx: Seq<char>| has_key(es0, kx) implies has_key(es, kx) by {
                            let w = choose|w: int| 0 <= w < es0.len() && (#[trigger] es0[w]).0@ == kx;
                            if w < p {
                                assert(es[w] == es0[w]);
                            } else {
                                assert(es[w + 1] == es0[w]);
                            }
                        }
                        assert forall|i: int| 0 <= i < es.len() implies rows_with_key(rows0.take(c + 1), pk, (#[trigger] es[i]).0@).len() > 0
                            && es[i].1 == rows_with_key(rows0.take(c + 1), pk, es[i].0@)[0] by {
                            if i < p {
                                assert(es[i] == es0[i]);
                                assert(es0[i].0@ != kk);
                            } else if i > p {
                                assert(es[i] == es0[i - 1]);
                                assert(es0[i - 1].0@ != kk);
                            }
                        }
                    } else {
                        assert(es == es0);
                        assert forall|i: int| 0 <= i < es.len() implies rows_with_key(rows0.take(c + 1), pk, (#[trigger] es[i]).0@).len() > 0
                            && es[i].1 == rows_with_key(rows0.take(c + 1), pk, es[i].0@)[0] by {
                            assert(es[i] == es0[i]);
                            let f0 = rows_with_key(rr, pk, es[i].0@);
                            if rk == Some(es[i].0@) {
                                assert(f0.push(row)[0] == f0[0]);
                            }
                        }
                    }
                    assert forall|k: int| 0 <= k < c + 1 && row_key(#[trigger] rows0.take(c + 1)[k], pk) is Some implies has_key(es, row_key(rows0.take(c + 1)[k], pk)->0) by {
                        if k < c {
                            assert(rows0.take(c + 1)[k] == rr[k]);
                            assert(has_key(es0, row_key(rr[k], pk)->0));
                        } else {
                            assert(rows0.take(c + 1)[k] == row);
                            lemma_has_key(es0, rk->0);
                        }
                    }
                } else {
                    let gs0 = tb.data->GroupedIndexed_0@;
                    let gs = table.data->GroupedIndexed_0@;
                    assert(tb.wf());
                    if r is Ok {
                        let kk = rk->0;
                        lemma_key_pos(gs0, kk);
                        let p = key_pos(gs0, kk);
                        if p >= 0 {
                            assert forall|i: int| 0 <= i < gs.len() implies (#[trigger] gs[i]).1@ == rows_with_key(rows0.take(c + 1), pk, gs[i].0@) by {
                                if i != p {
                                    assert(gs[i] == gs0[i]);
                                    if i > p {
                                        assert(crate::text::seq_lt(gs0[p].0@, gs0[i].0@));
                                        crate::text::lemma_lt_irreflexive(kk);
                                    }
                                }
                            }
                        } else {
                            let q = key_pos(gs, kk);
                            assert forall|i: int| 0 <= i < gs.len() implies (#[trigger] gs[i]).1@ == rows_with_key(rows0.take(c + 1), pk, gs[i].0@) by {
                                if i < q {
                                    assert(gs.remove(q)[i] == gs0[i]);
                                    assert(gs[i] == gs0[i]);
                                } else if i > q {
                                    assert(gs.remove(q)[i - 1] == gs0[i - 1]);
                                    assert(gs[i] == gs0[i - 1]);
                                } else {
                                    lemma_key_pos(gs, kk);
                                    assert(seq![row] == Seq::<Row>::empty().push(row));
                                }
                            }
                        }
                    } else {
                        assert(gs == gs0);
                    }
                    assert forall|k: int| 0 <= k < c + 1 && row_key(#[trigger] rows0.take(c + 1)[k], pk) is Some implies has_key(gs, row_key(rows0.take(c + 1)[k], pk)->0) by {
                        if k < c {
                            assert(rows0.take(c + 1)[k] == rr[k]);
                            assert(has_key(gs0, row_key(rr[k], pk)->0));
                        } else {
                            assert(rows0.take(c + 1)[k] == row);
                        }
                    }
                }
            }
        } else {
            let ghost rs0 = table.data->Sequential_0@;
            let _ = table.data.add_sequential_row(row);
            assert forall|m: int| 0 <= m < table.data->Sequential_0@.len() implies row_fits(#[trigger] table.data->Sequential_0@[m], hs) by {
                if m < rs0.len() {
                    assert(table.data->Sequential_0@[m] == rs0[m]);
                }
            }
            assert(rows0.take(c + 1) == rows0.take(c).push(rows0[c]));
        }
        proof {
            c = c + 1;
        }
    }
}

/// Reads a definition block: its name line, an optional header line and
/// its data lines. Lines that do not fit the schema, and rows whose key
/// cannot be filed, are left out.
proof fn lemma_row_key_of_line(r: Row, line: Seq<char>, hs: Seq<HeaderField>)
    requires
        row_of(r, line, hs),
        forall|i: int, j: int| 0 <= i < j < hs.len() ==> (#[trigger] hs[i]).name@ != (#[trigger] hs[j]).name@,
        pk_pos(hs) >= 0,
    ensures
        row_key(r, hs[pk_pos(hs)].name@) == line_key(line, hs),
{
    lemma_pk_pos(hs);
    let p = pk_pos(hs);
    let k = hs[p].name@;
    crate::structs::lemma_key_pos(r.fields@, k);
    let kp = key_pos(r.fields@, k);
    assert(r.fields@[p].0@ == k);
    if kp != p {
        assert(r.fields@[kp].0@ == hs[kp].name@);
    }
}

fn parse_block(lines: &Vec<Vec<char>>) -> (r: Result<(String, Table), String>)
    ensures
        ({
            let ls = nonblank(lines_view(lines@));
            &&& r is Ok <==> (ls.len() > 0 && block_name(ls[0]) is Some && (has_header(ls) ==> header_line_ok(ls[1])))
            &&& r matches Ok((n, t)) ==> t.wf() && t.keys_consistent() && t.name@ == n@ && n@ == block_name(ls[0])->0
                && block_body(t, ls)
        }),
{
    let ls = nonblank_lines(lines);
    let ghost L = lines_view(ls@);
    assert(L == nonblank(lines_view(lines@)));
    if ls.len() == 0 {
        return Err("Block is empty".to_string());
    }
    assert(ls@[0]@ == L[0]);
    let name_line = trimmed(&strip_comment(&ls[0]));
    if name_line.len() == 0 || name_line[name_line.len() - 1] != ':' {
        return Err(crate::text::message("Invalid table name line: ", string_of(&ls[0]).as_str()));
    }
    let name_chars = trimmed(&slice_of(&name_line, 0, name_line.len() - 1));
    assert(name_line@.subrange(0, name_line@.len() - 1) == name_line@.take(name_line@.len() - 1));
    let name = string_of(&name_chars);
    if ls.len() >= 2 {
        assert(ls@[1]@ == L[1]);
    }
    if ls.len() < 2 || !is_header_line(&ls[1]) {
        let mut raw: Vec<String> = Vec::new();
        let mut i: usize = 1;
        while i < ls.len()
            invariant
                1 <= i <= ls@.len(),
                L == lines_view(ls@),
                strings_view(raw@) == L.subrange(1, i as int),
                raw@.len() == i - 1,
            decreases ls@.len() - i,
        {
            assert(ls@[i as int]@ == L[i as int]);
            let ghost r0 = raw@;
            raw.push(string_of(&ls[i]));
            assert(raw@.last()@ == L[i as int]);
            assert(r0.len() == i - 1);
            assert forall|k: int| 0 <= k < raw@.len() implies #[trigger] strings_view(raw@)[k] == L.subrange(1, i + 1)[k] by {
                if k < raw@.len() - 1 {
                    assert(raw@[k] == r0[k]);
                    assert(strings_view(r0)[k] == L.subrange(1, i as int)[k]);
                }
            }
            assert(strings_view(raw@) =~= L.subrange(1, i + 1));
            i = i + 1;
        }
        assert(L.subrange(1, L.len() as int) == L.skip(1));
        let t = Table {
            name: string_of(&name_chars),
            headers: Vec::new(),
            header_map: Vec::new(),
            data: TableData::RawLines(raw),
            primary_key_field_name: None,
        };
        return Ok((name, t));
    }
    let header_line = string_of(&ls[1]);
    let (headers, pk) = match parse_header_line(header_line.as_str()) {
        Ok(x) => x,
        Err(e) => {
            return Err(e);
        },
    };
    let ghost hs = headers@;
    let ghost ts = header_texts(header_line@);
    proof {
        lemma_pk_pos(hs);
        assert forall|a: int, b: int| 0 <= a < b < hs.len() implies (#[trigger] hs[a]).name@ != (#[trigger] hs[b]).name@ by {
            assert(hs[a].name@ == header_name(ts[a]));
            assert(hs[b].name@ == header_name(ts[b]));
        }
    }
    let mut header_map: Vec<(String, usize)> = Vec::new();
    let mut i: usize = 0;
    while i < headers.len()
        invariant
            i <= headers@.len(),
            header_map@.len() == i,
            forall|k: int| 0 <= k < i ==> (#[trigger] header_map@[k]).0@ == headers@[k].name@ && header_map@[k].1 == k,
        decreases headers@.len() - i,
    {
        header_map.push((headers[i].name.clone(), i));
        i = i + 1;
    }
    let mut rows: Vec<Row> = Vec::new();
    let mut j: usize = 2;
    while j < ls.len()
        invariant
            2 <= j <= ls@.len(),
            L == lines_view(ls@),
            rows_fit(rows@, headers@),
            rows@.len() == fitting_lines(L.subrange(2, j as int), headers@).len(),
            forall|k: int| 0 <= k < rows@.len() ==> row_of(#[trigger] rows@[k], fitting_lines(L.subrange(2, j as int), headers@)[k], headers@),
        decreases ls@.len() - j,
    {
        let ghost fl0 = fitting_lines(L.subrange(2, j as int), headers@);
        assert(L.subrange(2, j + 1).drop_last() == L.subrange(2, j as int));
        assert(L.subrange(2, j + 1).last() == L[j as int]);
        assert(ls@[j as int]@ == L[j as int]);
        let line = string_of(&ls[j]);
        match parse_data_line(line.as_str(), headers.as_slice(), header_map.as_slice()) {
            Ok(row) => {
                let ghost rs0 = rows@;
                rows.push(row);
                assert forall|k: int| 0 <= k < rows@.len() implies row_fits(#[trigger] rows@[k], headers@) by {
                    if k < rs0.len() {
                        assert(rows@[k] == rs0[k]);
                    }
                }
                assert forall|k: int| 0 <= k < rows@.len() implies row_of(#[trigger] rows@[k], fitting_lines(L.subrange(2, j + 1), headers@)[k], headers@) by {
                    if k < rs0.len() {
                        assert(rows@[k] == rs0[k]);
                        assert(fitting_lines(L.subrange(2, j + 1), headers@)[k] == fl0[k]);
                    }
                }
            },
            Err(_) => {},
        }
        j = j + 1;
    }
    assert(L.subrange(2, L.len() as int) == L.skip(2));
    let ghost fl = fitting_lines(L.skip(2), headers@);
    let ghost rows0 = rows@;
    let mut table = Table {
        name: string_of(&name_chars),
        headers,
        header_map,
        data: TableData::Sequential(Vec::new()),
        primary_key_field_name: pk,
    };
    assert(table.wf());
    fill_table(&mut table, rows);
    proof {
        lemma_pk_pos(hs);
        let t = table;
        match t.data {
            TableData::Sequential(_) => {},
            TableData::Indexed(es) => {
                assert forall|k: int| 0 <= k < fl.len() && (#[trigger] line_key(fl[k], hs)) is Some implies has_key(es@, line_key(fl[k], hs)->0) by {
                    lemma_row_key_of_line(rows0[k], fl[k], hs);
                }
                assert forall|i: int| 0 <= i < es@.len() implies lines_with_key(fl, hs, (#[trigger] es@[i]).0@).len() > 0 && row_of(
                    es@[i].1, lines_with_key(fl, hs, es@[i].0@)[0], hs) by {
                    lemma_rows_lines_key(rows0, fl, hs, es@[i].0@);
                }
            },
            TableData::GroupedIndexed(gs) => {
                assert forall|k: int| 0 <= k < fl.len() && (#[trigger] line_key(fl[k], hs)) is Some implies has_key(gs@, line_key(fl[k], hs)->0) by {
                    lemma_row_key_of_line(rows0[k], fl[k], hs);
                }
                assert forall|i: int| 0 <= i < gs@.len() implies (#[trigger] gs@[i]).1@.len() == lines_with_key(fl, hs, gs@[i].0@).len() && forall|m: int|
                    0 <= m < gs@[i].1@.len() ==> row_of(gs@[i].1@[m], lines_with_key(fl, hs, gs@[i].0@)[m], hs) by {
                    lemma_rows_lines_key(rows0, fl, hs, gs@[i].0@);
                }
            },
            TableData::RawLines(_) => {},
        }
    }
    Ok((name, table))
}

pub open spec fn words_run(s: Seq<char>) -> (Seq<Seq<char>>, Seq<char>)
    decreases s.len(),
{
    if s.len() == 0 {
        (Seq::empty(), Seq::empty())
    } else {
        let (ws, cur) = words_run(s.drop_last());
        if is_ws(s.last()) {
            (if cur.len() > 0 { ws.push(cur) } else { ws }, Seq::empty())
        } else {
            (ws, cur.push(s.last()))
        }
    }
}

/// The whitespace-separated words of `s`, as `str::split_whitespace` gives them.
pub open spec fn words(s: Seq<char>) -> Seq<Seq<char>> {
    let (ws, cur) = words_run(s);
    if cur.len() > 0 {
        ws.push(cur)
    } else {
        ws
    }
}

fn split_words(v: &[char]) -> (r: Vec<Vec<char>>)
    ensures
        r@.len() == words(v@).len(),
        forall|j: int| 0 <= j < r@.len() ==> (#[trigger] r@[j])@ == words(v@)[j],
{
    let mut ws: Vec<Vec<char>> = Vec::new();
    let mut cur: Vec<char> = Vec::new();
    let mut i: usize = 0;
    while i < v.len()
        invariant
            i <= v@.len(),
            ({
                let st = words_run(v@.take(i as int));
                &&& ws@.len() == st.0.len()
                &&& forall|j: int| 0 <= j < ws@.len() ==> (#[trigger] ws@[j])@ == st.0[j]
                &&& cur@ == st.1
            }),
        decreases v@.len() - i,
    {
        assert(v@.take(i + 1).drop_last() == v@.take(i as int));
        if crate::text::is_ws_char(v[i]) {
            if cur.len() > 0 {
                ws.push(cur);
            }
            cur = Vec::new();
        } else {
            cur.push(v[i]);
        }
        i = i + 1;
    }
    assert(v@.take(v@.len() as int) == v@);
    if cur.len() > 0 {
        ws.push(cur);
    }
    ws
}

fn strings_of(vs: &Vec<Vec<char>>) -> (r: Vec<String>)
    ensures
        r@.len() == vs@.len(),
        forall|j: int| 0 <= j < r@.len() ==> (#[trigger] r@[j])@ == vs@[j]@,
{
    let mut out: Vec<String> = Vec::new();
    let mut i: usize = 0;
    while i < vs.len()
        invariant
            i <= vs@.len(),
            out@.len() == i,
            forall|j: int| 0 <= j < i ==> (#[trigger] out@[j])@ == vs@[j]@,
        decreases vs@.len() - i,
    {
        out.push(string_of(&vs[i]));
        i = i + 1;
    }
    out
}

/// The table list of a `pack` line: the words before any `#`.
pub open spec fn pack_names(args: Seq<char>) -> Seq<Seq<char>> {
    let p = char_pos(args, '#');
    words(if p >= 0 {
        args.take(p)
    } else {
        args
    })
}

/// Reads the table names after `pack`.
fn parse_pack_args(args_line: &str) -> (r: Result<DslStatement, String>)
    ensures
        r is Ok <==> pack_names(args_line@).len() > 0,
        r matches Ok(st) ==> st matches DslStatement::Pack { table_names } && table_names@.len()
            == pack_names(args_line@).len() && forall|j: int|
            0 <= j < table_names@.len() ==> (#[trigger] table_names@[j])@ == pack_names(args_line@)[j],
{
    let v = chars_of(args_line);
    let content = match find_char(&v, '#') {
        Some(p) => slice_of(&v, 0, p),
        None => slice_of(&v, 0, v.len()),
    };
    assert(v@.subrange(0, v@.len() as int) == v@);
    assert(content@ == (if char_pos(args_line@, '#') >= 0 {
        args_line@.take(char_pos(args_line@, '#'))
    } else {
        args_line@
    }));
    let ws = split_words(&content);
    if ws.len() == 0 {
        return Err("Pack arguments must specify at least one table name.".to_string());
    }
    Ok(DslStatement::Pack { table_names: strings_of(&ws) })
}

/// The path and value text of an update line `#. path = value`.
pub open spec fn update_parts(line: Seq<char>) -> Option<(Seq<char>, Seq<char>)> {
    let p = char_pos(line, '=');
    if p < 0 {
        None
    } else {
        let left = trim(line.take(p));
        if left.len() >= 2 && left[0] == '#' && left[1] == '.' && trim(left.skip(2)).len() > 0 {
            Some((trim(left.skip(2)), trim(line.skip(p + 1))))
        } else {
            None
        }
    }
}

/// Reads an update line.
fn parse_update_statement(line: &str) -> (r: Result<DslStatement, String>)
    ensures
        r is Ok <==> update_parts(line@) is Some,
        r matches Ok(st) ==> st matches DslStatement::Update { path, value_str } && update_parts(line@)
            == Some((path@, value_str@)),
{
    let v = chars_of(line);
    let p = match find_char(&v, '=') {
        Some(p) => p,
        None => {
            return Err(crate::text::message("Invalid update statement format: ", line));
        },
    };
    let left = trimmed(&slice_of(&v, 0, p));
    if !(left.len() >= 2 && left[0] == '#' && left[1] == '.') {
        return Err(crate::text::message("Update path missing '#.' prefix: ", line));
    }
    let path = trimmed(&slice_of(&left, 2, left.len()));
    if path.len() == 0 {
        return Err(crate::text::message("Update path cannot be empty: ", line));
    }
    let value = trimmed(&slice_of(&v, p + 1, v.len()));
    Ok(DslStatement::Update { path: string_of(&path), value_str: string_of(&value) })
}

pub open spec fn add_suffix() -> Seq<char> {
    seq!['.', 'a', 'd', 'd', '(', ')']
}

/// The table named by an add line `.name.add()`.
pub open spec fn add_target(line: Seq<char>) -> Option<Seq<char>> {
    let t = trim(line);
    if t.len() >= 8 && t.skip(t.len() - 6) == add_suffix() && t[0] == '.' {
        let name = t.subrange(1, t.len() - 6);
        if char_pos(name, '.') < 0 && char_pos(name, '[') < 0 && char_pos(name, ']') < 0 {
            Some(name)
        } else {
            None
        }
    } else {
        None
    }
}

/// Reads an add line.
fn parse_add_statement(line: &str) -> (r: Result<DslStatement, String>)
    ensures
        r is Ok <==> add_target(line@) is Some,
        r matches Ok(st) ==> st matches DslStatement::Add { table_name } && add_target(line@) == Some(
            table_name@,
        ),
{
    let t = trimmed(&chars_of(line));
    let sfx: Vec<char> = vec!['.', 'a', 'd', 'd', '(', ')'];
    if t.len() < 8 || !chars_eq(&slice_of(&t, t.len() - 6, t.len()), &sfx) || t[0] != '.' {
        return Err(crate::text::message("Invalid add statement format: ", line));
    }
    let name = slice_of(&t, 1, t.len() - 6);
    if find_char(&name, '.').is_some() || find_char(&name, '[').is_some() || find_char(&name, ']').is_some() {
        return Err(crate::text::message("Invalid table name for add operation: ", line));
    }
    Ok(DslStatement::Add { table_name: string_of(&name) })
}

pub open spec fn nl_run(s: Seq<char>) -> (Seq<Seq<char>>, Seq<char>)
    decreases s.len(),
{
    if s.len() == 0 {
        (Seq::empty(), Seq::empty())
    } else {
        let (ls, cur) = nl_run(s.drop_last());
        if s.last() == '\n' {
            (ls.push(cur), Seq::empty())
        } else {
            (ls, cur.push(s.last()))
        }
    }
}

/// The lines of a text, split at `\n`; a final empty line is dropped.
pub open spec fn lines_of(s: Seq<char>) -> Seq<Seq<char>> {
    let (ls, cur) = nl_run(s);
    if cur.len() > 0 {
        ls.push(cur)
    } else {
        ls
    }
}

/// Splits text into lines at `\n`.
fn split_lines(v: &[char]) -> (r: Vec<Vec<char>>)
    ensures
        lines_view(r@) == lines_of(v@),
{
    let mut out: Vec<Vec<char>> = Vec::new();
    let mut cur: Vec<char> = Vec::new();
    let mut i: usize = 0;
    while i < v.len()
        invariant
            i <= v@.len(),
            lines_view(out@) == nl_run(v@.take(i as int)).0,
            cur@ == nl_run(v@.take(i as int)).1,
        decreases v@.len() - i,
    {
        assert(v@.take(i + 1).drop_last() == v@.take(i as int));
        if v[i] == '\n' {
            out.push(cur);
            cur = Vec::new();
        } else {
            cur.push(v[i]);
        }
        assert(lines_view(out@) =~= nl_run(v@.take(i + 1)).0);
        i = i + 1;
    }
    assert(v@.take(v@.len() as int) == v@);
    if cur.len() > 0 {
        out.push(cur);
    }
    assert(lines_view(out@) =~= lines_of(v@));
    out
}

fn starts_with(v: &[char], p: &[char]) -> (r: bool)
    ensures
        r == starts(v@, p@),
{
    if p.len() > v.len() {
        return false;
    }
    let head = slice_of(v, 0, p.len());
    chars_eq(&head, p)
}

pub open spec fn starts(t: Seq<char>, p: Seq<char>) -> bool {
    p.len() <= t.len() && t.take(p.len() as int) == p
}

pub open spec fn quote_start(s: Seq<char>) -> Seq<char>
    decreases s.len(),
{
    if s.len() > 0 && s[0] == '"' {
        quote_start(s.drop_first())
    } else {
        s
    }
}

pub open spec fn quote_end(s: Seq<char>) -> Seq<char>
    decreases s.len(),
{
    if s.len() > 0 && s.last() == '"' {
        quote_end(s.drop_last())
    } else {
        s
    }
}

/// `s` without leading and trailing double quotes.
pub open spec fn strip_quotes_spec(s: Seq<char>) -> Seq<char> {
    quote_end(quote_start(s))
}

proof fn lemma_quote_start(s: Seq<char>, lo: int)
    requires
        0 <= lo <= s.len(),
        forall|i: int| 0 <= i < lo ==> #[trigger] s[i] == '"',
        lo == s.len() || s[lo] != '"',
    ensures
        quote_start(s) == s.subrange(lo, s.len() as int),
    decreases lo,
{
    if lo > 0 {
        assert(s.drop_first().subrange(lo - 1, s.len() - 1) == s.subrange(lo, s.len() as int));
        lemma_quote_start(s.drop_first(), lo - 1);
    } else {
        assert(s.subrange(0, s.len() as int) == s);
    }
}

proof fn lemma_quote_end(s: Seq<char>, hi: int)
    requires
        0 <= hi <= s.len(),
        forall|i: int| hi <= i < s.len() ==> #[trigger] s[i] == '"',
        hi == 0 || s[hi - 1] != '"',
    ensures
        quote_end(s) == s.subrange(0, hi),
    decreases s.len() - hi,
{
    if hi < s.len() {
        assert(s.drop_last().subrange(0, hi) == s.subrange(0, hi));
        lemma_quote_end(s.drop_last(), hi);
    } else {
        assert(s.subrange(0, s.len() as int) == s);
    }
}

/// `s` without leading and trailing double quotes.
fn strip_quotes(v: &[char]) -> (r: Vec<char>)
    ensures
        r@ == strip_quotes_spec(v@),
{
    let mut lo: usize = 0;
    while lo < v.len() && v[lo] == '"'
        invariant
            lo <= v@.len(),
            forall|i: int| 0 <= i < lo ==> #[trigger] v@[i] == '"',
        decreases v@.len() - lo,
    {
        lo = lo + 1;
    }
    proof {
        lemma_quote_start(v@, lo as int);
    }
    let ghost t = v@.subrange(lo as int, v@.len() as int);
    let mut hi: usize = v.len();
    while hi > lo && v[hi - 1] == '"'
        invariant
            lo <= hi <= v@.len(),
            forall|i: int| hi <= i < v@.len() ==> #[trigger] v@[i] == '"',
        decreases hi,
    {
        hi = hi - 1;
    }
    proof {
        assert forall|i: int| hi - lo <= i < t.len() implies #[trigger] t[i] == '"' by {
            assert(t[i] == v@[i + lo]);
        }
        lemma_quote_end(t, hi - lo);
        assert(t.subrange(0, hi - lo) == v@.subrange(lo as int, hi as int));
    }
    slice_of(v, lo, hi)
}

/// What a line of a document is, once classified.
pub enum Shape {
    Def(Seq<Seq<char>>),
    Upd(Seq<char>),
    AddLine(Seq<char>),
    PackArgs(Seq<char>),
    Copy(Seq<char>, Seq<char>, Seq<char>),
    Refer(Seq<char>, Seq<char>),
}

/// A block whose lines parse: a name line, and a valid header line if any.
pub open spec fn block_ok(b: Seq<Seq<char>>) -> bool {
    let ls = nonblank(b);
    ls.len() > 0 && block_name(ls[0]) is Some && (has_header(ls) ==> header_line_ok(ls[1]))
}

pub open spec fn shape_ok(sh: Shape) -> bool {
    match sh {
        Shape::Def(b) => block_ok(b),
        Shape::Upd(t) => update_parts(t) is Some,
        Shape::AddLine(t) => add_target(t) is Some,
        Shape::PackArgs(a) => pack_names(a).len() > 0,
        _ => true,
    }
}

/// The statement a classified line reads as.
pub open spec fn stmt_of(sh: Shape, st: DslStatement) -> bool {
    match sh {
        Shape::Def(b) => st matches DslStatement::Definition(n, t) && ({
            let ls = nonblank(b);
            t.wf() && t.keys_consistent() && t.name@ == n@ && n@ == block_name(ls[0])->0 && block_body(t, ls)
        }),
        Shape::Upd(t) => st matches DslStatement::Update { path, value_str } && update_parts(t) == Some(
            (path@, value_str@),
        ),
        Shape::AddLine(t) => st matches DslStatement::Add { table_name } && add_target(t) == Some(table_name@),
        Shape::PackArgs(a) => st matches DslStatement::Pack { table_names } && strings_view(table_names@)
            == pack_names(a),
        Shape::Copy(src, path, tgt) => st matches DslStatement::CopyStructure {
            source_table_name,
            source_path,
            target_table_name,
        } && source_table_name@ == src && source_path@ == path && target_table_name@ == tgt,
        Shape::Refer(src, path) => st matches DslStatement::Reference {
            source_table_name,
            source_path,
            target_table_name,
        } && source_table_name@ == src && source_path@ == path && target_table_name@ == src,
    }
}

pub type ScanState = (Seq<Shape>, Seq<Seq<char>>);

/// Closes the open block into a definition.
pub open spec fn flush(st: ScanState) -> ScanState {
    if st.1.len() > 0 {
        (st.0.push(Shape::Def(st.1)), Seq::empty())
    } else {
        (st.0, Seq::empty())
    }
}

pub open spec fn kw_update_prefix() -> Seq<char> {
    seq!['#', '.']
}

pub open spec fn kw_pack_prefix() -> Seq<char> {
    seq!['p', 'a', 'c', 'k', ' ']
}

pub open spec fn kw_from() -> Seq<char> {
    seq!['f', 'r', 'o', 'm']
}

pub open spec fn kw_as() -> Seq<char> {
    seq!['a', 's']
}

pub open spec fn is_copy_line(t: Seq<char>) -> bool {
    let ws = words(t);
    char_pos(t, ':') < 0 && ws.len() == 5 && ws[1] == kw_from() && ws[3] == kw_as() && strip_quotes_spec(ws[2]).len()
        > 0
}

pub open spec fn is_ref_line(t: Seq<char>) -> bool {
    let ws = words(t);
    char_pos(t, ':') < 0 && ws.len() == 3 && ws[1] == kw_from() && strip_quotes_spec(ws[2]).len() > 0
}

/// One line of a document: blank lines and comments are skipped; update,
/// pack, add and directive lines close the open block and stand alone; any
/// other line joins the open block, where a `~` closes it.
pub open spec fn line_step(st: ScanState, line: Seq<char>) -> ScanState {
    let t = trim(line);
    if t.len() == 0 {
        st
    } else if starts(t, kw_update_prefix()) {
        (flush(st).0.push(Shape::Upd(t)), Seq::empty())
    } else if t[0] == '#' {
        st
    } else if starts(t, kw_pack_prefix()) {
        (flush(st).0.push(Shape::PackArgs(t.skip(5))), Seq::empty())
    } else if t[0] == '.' && !(t.len() > 1 && t[1] == '.') {
        (flush(st).0.push(Shape::AddLine(t)), Seq::empty())
    } else if is_copy_line(t) {
        let ws = words(t);
        (flush(st).0.push(Shape::Copy(ws[0], strip_quotes_spec(ws[2]), ws[4])), Seq::empty())
    } else if is_ref_line(t) {
        let ws = words(t);
        (flush(st).0.push(Shape::Refer(ws[0], strip_quotes_spec(ws[2]))), Seq::empty())
    } else {
        let p = char_pos(line, '~');
        if p < 0 {
            (st.0, st.1.push(line))
        } else {
            let before = trim(line.take(p));
            let b1 = if before.len() > 0 {
                st.1.push(before)
            } else {
                st.1
            };
            let after = trim(line.skip(p + 1));
            (flush((st.0, b1)).0, if after.len() > 0 { seq![after] } else { Seq::empty() })
        }
    }
}

pub open spec fn scan_run(ls: Seq<Seq<char>>) -> ScanState
    decreases ls.len(),
{
    if ls.len() == 0 {
        (Seq::empty(), Seq::empty())
    } else {
        line_step(scan_run(ls.drop_last()), ls.last())
    }
}

/// The classified statements of a document's lines.
pub open spec fn scan(ls: Seq<Seq<char>>) -> Seq<Shape> {
    flush(scan_run(ls)).0
}

pub open spec fn is_prefix(a: Seq<Shape>, b: Seq<Shape>) -> bool {
    a.len() <= b.len() && b.take(a.len() as int) == a
}

proof fn lemma_step_extends(st: ScanState, line: Seq<char>)
    ensures
        is_prefix(st.0, line_step(st, line).0),
        is_prefix(st.0, flush(st).0),
{
    assert(st.0.push(Shape::Def(st.1)).take(st.0.len() as int) == st.0);
    assert(st.0.take(st.0.len() as int) == st.0);
    let f = flush(st);
    assert forall|x: Shape| #[trigger] f.0.push(x).take(st.0.len() as int) == st.0 by {
        assert(f.0.push(x).take(st.0.len() as int) =~= st.0);
    }
    let p = char_pos(line, '~');
    if trim(line).len() > 0 && p >= 0 {
        let before = trim(line.take(p));
        let b1 = if before.len() > 0 {
            st.1.push(before)
        } else {
            st.1
        };
        assert(flush((st.0, b1)).0.take(st.0.len() as int) =~= st.0);
    }
}

proof fn lemma_scan_extends(ls: Seq<Seq<char>>, i: int)
    requires
        0 <= i <= ls.len(),
    ensures
        is_prefix(scan_run(ls.take(i)).0, scan(ls)),
    decreases ls.len() - i,
{
    if i == ls.len() {
        assert(ls.take(i) == ls);
        lemma_step_extends(scan_run(ls), Seq::empty());
    } else {
        lemma_scan_extends(ls, i + 1);
        assert(ls.take(i + 1).drop_last() == ls.take(i));
        lemma_step_extends(scan_run(ls.take(i)), ls[i]);
        let a = scan_run(ls.take(i)).0;
        let b = scan_run(ls.take(i + 1)).0;
        let c = scan(ls);
        assert(c.take(a.len() as int) =~= c.take(b.len() as int).take(a.len() as int));
    }
}

/// Closes the open block, if any, into a statement.
fn flush_block(block: &mut Vec<Vec<char>>, out: &mut Vec<DslStatement>) -> (r: Result<(), String>)
    ensures
        final(block)@.len() == 0,
        lines_view(old(block)@).len() == 0 ==> r is Ok && final(out)@ == old(out)@,
        lines_view(old(block)@).len() > 0 ==> (r is Ok <==> block_ok(lines_view(old(block)@))),
        lines_view(old(block)@).len() > 0 && r is Ok ==> final(out)@.len() == old(out)@.len() + 1 && final(out)@.drop_last()
            == old(out)@ && stmt_of(Shape::Def(lines_view(old(block)@)), final(out)@.last()) && statement_ok(
            final(out)@.last(),
        ),
{
    if block.len() > 0 {
        match parse_block(block) {
            Ok((name, table)) => {
                let ghost o = out@;
                out.push(DslStatement::Definition(name, table));
                assert(out@.drop_last() == o);
            },
            Err(e) => {
                block.clear();
                return Err(e);
            },
        }
    }
    block.clear();
    Ok(())
}

/// The statements read so far match the classified lines, all of which parse.
pub open spec fn matches_shapes(out: Seq<DslStatement>, items: Seq<Shape>) -> bool {
    &&& out.len() == items.len()
    &&& forall|j: int| 0 <= j < items.len() ==> stmt_of(#[trigger] items[j], out[j]) && statement_ok(out[j]) && shape_ok(items[j])
}

/// Some classified line does not parse.
pub open spec fn some_fails(items: Seq<Shape>) -> bool {
    exists|k: int| 0 <= k < items.len() && !shape_ok(#[trigger] items[k])
}

proof fn lemma_fail(ls: Seq<Seq<char>>, i: int)
    requires
        0 <= i <= ls.len(),
        some_fails(scan_run(ls.take(i)).0),
    ensures
        some_fails(scan(ls)),
{
    let k = choose|k: int| 0 <= k < scan_run(ls.take(i)).0.len() && !shape_ok(#[trigger] scan_run(ls.take(i)).0[k]);
    lemma_scan_extends(ls, i);
    assert(scan(ls)[k] == scan(ls).take(scan_run(ls.take(i)).0.len() as int)[k]);
}

proof fn lemma_matches_push(out: Seq<DslStatement>, items: Seq<Shape>, st: DslStatement, sh: Shape)
    requires
        matches_shapes(out, items),
        stmt_of(sh, st),
        statement_ok(st),
        shape_ok(sh),
    ensures
        matches_shapes(out.push(st), items.push(sh)),
{
    assert forall|j: int| 0 <= j < items.len() + 1 implies stmt_of(#[trigger] items.push(sh)[j], out.push(st)[j])
        && statement_ok(out.push(st)[j]) && shape_ok(items.push(sh)[j]) by {
        if j < items.len() {
            assert(items.push(sh)[j] == items[j]);
            assert(out.push(st)[j] == out[j]);
        }
    }
}

/// Closes the open block, then adds a statement read from a line of shape `sh`.
fn flush_push(
    block: &mut Vec<Vec<char>>,
    out: &mut Vec<DslStatement>,
    stm: DslStatement,
    Ghost(st): Ghost<ScanState>,
    Ghost(sh): Ghost<Shape>,
) -> (r: Result<(), String>)
    requires
        lines_view(old(block)@) == st.1,
        matches_shapes(old(out)@, st.0),
        stmt_of(sh, stm),
        statement_ok(stm),
        shape_ok(sh),
    ensures
        r is Ok ==> final(block)@.len() == 0 && matches_shapes(final(out)@, flush(st).0.push(sh)),
        r is Err ==> some_fails(flush(st).0.push(sh)),
{
    let ghost o0 = out@;
    match flush_block(block, out) {
        Ok(()) => {},
        Err(e) => {
            assert(flush(st).0.push(sh)[o0.len() as int] == Shape::Def(st.1));
            return Err(e);
        },
    }
    proof {
        if st.1.len() > 0 {
            assert(out@ == o0.push(out@.last()));
            lemma_matches_push(o0, st.0, out@.last(), Shape::Def(st.1));
        }
        lemma_matches_push(out@, flush(st).0, stm, sh);
    }
    out.push(stm);
    Ok(())
}

/// Reads one line of a document into the open block and the statements.
fn scan_line(
    line: &Vec<char>,
    block: &mut Vec<Vec<char>>,
    out: &mut Vec<DslStatement>,
    Ghost(st): Ghost<ScanState>,
) -> (r: Result<(), String>)
    requires
        lines_view(old(block)@) == st.1,
        matches_shapes(old(out)@, st.0),
    ensures
        r is Ok ==> lines_view(final(block)@) == line_step(st, line@).1 && matches_shapes(final(out)@, line_step(st, line@).0),
        r is Err ==> some_fails(line_step(st, line@).0),
{
    let ghost next = line_step(st, line@);
    let t = trimmed(line);
    if t.len() == 0 {
        return Ok(());
    }
    let kw_update: Vec<char> = vec!['#', '.'];
    if starts_with(&t, &kw_update) {
        match parse_update_statement(string_of(&t).as_str()) {
            Ok(stm) => {
                return flush_push(block, out, stm, Ghost(st), Ghost(Shape::Upd(t@)));
            },
            Err(e) => {
                assert(next.0[next.0.len() - 1] == Shape::Upd(t@));
                return Err(e);
            },
        }
    }
    if t[0] == '#' {
        return Ok(());
    }
    let kw_pack: Vec<char> = vec!['p', 'a', 'c', 'k', ' '];
    if starts_with(&t, &kw_pack) {
        let args = slice_of(&t, 5, t.len());
        assert(args@ == t@.skip(5));
        match parse_pack_args(string_of(&args).as_str()) {
            Ok(stm) => {
                proof {
                    if let DslStatement::Pack { table_names } = &stm {
                        assert(strings_view(table_names@) =~= pack_names(t@.skip(5)));
                    }
                }
                return flush_push(block, out, stm, Ghost(st), Ghost(Shape::PackArgs(t@.skip(5))));
            },
            Err(e) => {
                assert(next.0[next.0.len() - 1] == Shape::PackArgs(t@.skip(5)));
                return Err(e);
            },
        }
    }
    if t[0] == '.' && !(t.len() > 1 && t[1] == '.') {
        match parse_add_statement(string_of(&t).as_str()) {
            Ok(stm) => {
                return flush_push(block, out, stm, Ghost(st), Ghost(Shape::AddLine(t@)));
            },
            Err(e) => {
                assert(next.0[next.0.len() - 1] == Shape::AddLine(t@));
                return Err(e);
            },
        }
    }
    let ws = split_words(&t);
    let kw_from_v: Vec<char> = vec!['f', 'r', 'o', 'm'];
    let kw_as_v: Vec<char> = vec!['a', 's'];
    let no_colon = find_char(&t, ':').is_none();
    let is_copy = no_colon && ws.len() == 5 && chars_eq(&ws[1], &kw_from_v) && chars_eq(&ws[3], &kw_as_v)
        && strip_quotes(&ws[2]).len() > 0;
    let is_ref = !is_copy && no_colon && ws.len() == 3 && chars_eq(&ws[1], &kw_from_v)
        && strip_quotes(&ws[2]).len() > 0;
    proof {
        let wv = words(t@);
        if ws@.len() >= 3 {
            assert(ws@[1]@ == wv[1]);
            assert(ws@[2]@ == wv[2]);
        }
        if ws@.len() >= 5 {
            assert(ws@[3]@ == wv[3]);
        }
        assert(is_copy == is_copy_line(t@));
        assert(is_ref == (!is_copy_line(t@) && is_ref_line(t@)));
    }
    if is_copy {
        let path = strip_quotes(&ws[2]);
        let stm = DslStatement::CopyStructure {
            source_table_name: string_of(&ws[0]),
            source_path: string_of(&path),
            target_table_name: string_of(&ws[4]),
        };
        let ghost wv = words(t@);
        assert(ws@[0]@ == wv[0] && ws@[2]@ == wv[2] && ws@[4]@ == wv[4]);
        return flush_push(block, out, stm, Ghost(st), Ghost(Shape::Copy(wv[0], strip_quotes_spec(wv[2]), wv[4])));
    }
    if is_ref {
        let path = strip_quotes(&ws[2]);
        let stm = DslStatement::Reference {
            source_table_name: string_of(&ws[0]),
            source_path: string_of(&path),
            target_table_name: string_of(&ws[0]),
        };
        let ghost wv = words(t@);
        assert(ws@[0]@ == wv[0] && ws@[2]@ == wv[2]);
        return flush_push(block, out, stm, Ghost(st), Ghost(Shape::Refer(wv[0], strip_quotes_spec(wv[2]))));
    }
    match find_char(line, '~') {
        None => {
            block.push(copy_line(line));
            assert(lines_view(block@) =~= next.1);
            Ok(())
        },
        Some(p) => {
            assert(p < line.len());
            let before = trimmed(&slice_of(line, 0, p));
            assert(line@.subrange(0, p as int) == line@.take(p as int));
            let ghost bv = before@;
            if before.len() > 0 {
                block.push(before);
            }
            let ghost b1 = lines_view(block@);
            assert(b1 =~= (if bv.len() > 0 { st.1.push(bv) } else { st.1 }));
            let ghost o0 = out@;
            match flush_block(block, out) {
                Ok(()) => {},
                Err(e) => {
                    assert(next.0[o0.len() as int] == Shape::Def(b1));
                    return Err(e);
                },
            }
            let after = trimmed(&slice_of(line, p + 1, line.len()));
            assert(line@.subrange(p + 1, line@.len() as int) == line@.skip(p + 1));
            if after.len() > 0 {
                block.push(after);
            }
            proof {
                assert(lines_view(block@) =~= next.1);
                if b1.len() > 0 {
                    assert(out@ == o0.push(out@.last()));
                    lemma_matches_push(o0, st.0, out@.last(), Shape::Def(b1));
                }
            }
            Ok(())
        },
    }
}

/// Reads a document into its statements: definition blocks, updates, adds,
/// packs and the two cross-file directives, one statement per classified
/// line or block, in order. The document is refused when one of them does
/// not parse.
pub fn parse_dsl_input(input: &str, _sources: Option<&Vec<(String, String)>>) -> (r: Result<Vec<DslStatement>, String>)
    ensures
        ({
            let items = scan(lines_of(input@));
            &&& r is Ok <==> !some_fails(items)
            &&& r matches Ok(sts) ==> matches_shapes(sts@, items)
            &&& r matches Ok(sts) ==> forall|j: int| 0 <= j < sts@.len() ==> statement_ok(#[trigger] sts@[j])
        }),
{
    let v = chars_of(input);
    let lines = split_lines(&v);
    let ghost LS = lines_of(input@);
    let mut out: Vec<DslStatement> = Vec::new();
    let mut block: Vec<Vec<char>> = Vec::new();
    let mut i: usize = 0;
    assert(LS.take(0) == Seq::<Seq<char>>::empty());
    while i < lines.len()
        invariant
            i <= lines@.len(),
            lines_view(lines@) == LS,
            LS == lines_of(input@),
            lines_view(block@) == scan_run(LS.take(i as int)).1,
            matches_shapes(out@, scan_run(LS.take(i as int)).0),
        decreases lines@.len() - i,
    {
        let ghost st = scan_run(LS.take(i as int));
        assert(LS.take(i + 1).drop_last() == LS.take(i as int));
        assert(lines@[i as int]@ == LS[i as int]);
        match scan_line(&lines[i], &mut block, &mut out, Ghost(st)) {
            Ok(()) => {},
            Err(e) => {
                proof {
                    lemma_fail(LS, i + 1);
                }
                return Err(e);
            },
        }
        i = i + 1;
    }
    assert(LS.take(LS.len() as int) == LS);
    let ghost o0 = out@;
    let ghost st = scan_run(LS);
    match flush_block(&mut block, &mut out) {
        Ok(()) => {},
        Err(e) => {
            assert(scan(LS)[o0.len() as int] == Shape::Def(st.1));
            return Err(e);
        },
    }
    proof {
        if st.1.len() > 0 {
            assert(out@ == o0.push(out@.last()));
            lemma_matches_push(o0, st.0, out@.last(), Shape::Def(st.1));
        }
        assert forall|j: int| 0 <= j < out@.len() implies statement_ok(#[trigger] out@[j]) by {
            assert(stmt_of(scan(LS)[j], out@[j]) && statement_ok(out@[j]));
        }
    }
    Ok(out)
}

fn copy_line(v: &Vec<char>) -> (r: Vec<char>)
    ensures
        r@ == v@,
{
    let r = slice_of(v, 0, v.len());
    assert(v@.subrange(0, v@.len() as int) == v@);
    r
}

} // verus!
