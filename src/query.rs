//! Path queries over a root, updates, row adds and the canonical
//! serializer.
use vstd::prelude::*;
use crate::structs::{Value, ValueModel, Row, Table, TableData, DslRoot, HeaderField, canonical_key, key_pos, lemma_key_pos, find_key, row_get, opt_view, table_pos, lemma_table_pos, model_of, views_of, row_fits, pk_pos, lemma_pk_pos, pk_name, kw_sindex, numbered, is_discipline};
use crate::text::{is_ws, is_ws_char, chars_of, chars_eq, chars_eq_ignore_case, eq_ignore_case, string_of, slice_of, parse_index, parse_usize, message};
use crate::parser::{dc_pos, find_double_colon, char_pos, find_char, value_to_string_key};

verus! {

/// Path text as tokens: `.`-separated names and `[...]` groups, or `None`
/// for a path without the `#.` prefix or with unbalanced brackets.
pub open spec fn tok_run(s: Seq<char>) -> Option<(Seq<Seq<char>>, Seq<char>, bool)>
    decreases s.len(),
{
    if s.len() == 0 {
        Some((Seq::empty(), Seq::empty(), false))
    } else {
        match tok_run(s.drop_last()) {
            None => None,
            Some((ts, cur, inb)) => {
                let c = s.last();
                if c == '.' {
                    if inb {
                        Some((ts, cur.push(c), inb))
                    } else {
                        Some((if cur.len() > 0 { ts.push(cur) } else { ts }, Seq::empty(), inb))
                    }
                } else if c == '[' {
                    if inb {
                        None
                    } else {
                        Some((if cur.len() > 0 { ts.push(cur) } else { ts }, seq!['['], true))
                    }
                } else if c == ']' {
                    if !inb {
                        None
                    } else {
                        Some((ts.push(cur.push(c)), Seq::empty(), false))
                    }
                } else {
                    Some((ts, cur.push(c), inb))
                }
            },
        }
    }
}

proof fn lemma_tok_none(s: Seq<char>, k: int)
    requires
        0 <= k <= s.len(),
        tok_run(s.take(k)) is None,
    ensures
        tok_run(s) is None,
    decreases s.len(),
{
    if k == s.len() {
        assert(s.take(k) == s);
    } else {
        assert(s.drop_last().take(k) == s.take(k));
        lemma_tok_none(s.drop_last(), k);
    }
}

pub open spec fn tokenize(q: Seq<char>) -> Option<Seq<Seq<char>>> {
    if q.len() >= 2 && q[0] == '#' && q[1] == '.' {
        match tok_run(q.skip(2)) {
            Some((ts, cur, inb)) => if inb {
                None
            } else if cur.len() > 0 {
                Some(ts.push(cur))
            } else {
                Some(ts)
            },
            None => None,
        }
    } else {
        None
    }
}

/// Splits a path `#.a.b[c]` into its tokens.
fn tokenize_query_path(query_path_str: &str) -> (r: Result<Vec<Vec<char>>, String>)
    ensures
        match tokenize(query_path_str@) {
            Some(ts) => r matches Ok(v) && v@.len() == ts.len() && forall|j: int|
                0 <= j < ts.len() ==> (#[trigger] v@[j])@ == ts[j],
            None => r is Err,
        },
{
    let q = chars_of(query_path_str);
    if !(q.len() >= 2 && q[0] == '#' && q[1] == '.') {
        return Err("Query must start with #.".to_string());
    }
    let path = slice_of(&q, 2, q.len());
    assert(path@ == query_path_str@.skip(2));
    let mut toks: Vec<Vec<char>> = Vec::new();
    let mut cur: Vec<char> = Vec::new();
    let mut inb = false;
    let mut i: usize = 0;
    while i < path.len()
        invariant
            i <= path@.len(),
            path@ == query_path_str@.skip(2),
            query_path_str@.len() >= 2 && query_path_str@[0] == '#' && query_path_str@[1] == '.',
            tok_run(path@.take(i as int)) matches Some(st) && toks@.len() == st.0.len() && (forall|j: int|
                0 <= j < toks@.len() ==> (#[trigger] toks@[j])@ == st.0[j]) && cur@ == st.1 && inb == st.2,
        decreases path@.len() - i,
    {
        assert(path@.take(i + 1).drop_last() == path@.take(i as int));
        let c = path[i];
        assert(path@.take(i + 1).last() == c);
        if c == '.' {
            if inb {
                cur.push(c);
            } else {
                if cur.len() > 0 {
                    toks.push(cur);
                }
                cur = Vec::new();
            }
        } else if c == '[' {
            if inb {
                proof {
                    lemma_tok_none(path@, i + 1);
                }
                return Err("Nested brackets are not supported in query path.".to_string());
            }
            if cur.len() > 0 {
                toks.push(cur);
            }
            cur = vec!['['];
            inb = true;
        } else if c == ']' {
            if !inb {
                proof {
                    lemma_tok_none(path@, i + 1);
                }
                return Err("Unmatched ']' in query path.".to_string());
            }
            cur.push(c);
            toks.push(cur);
            cur = Vec::new();
            inb = false;
        } else {
            cur.push(c);
        }
        i = i + 1;
    }
    assert(path@.take(path@.len() as int) == path@);
    if inb {
        return Err("Unclosed '[' in query path.".to_string());
    }
    if cur.len() > 0 {
        toks.push(cur);
    }
    Ok(toks)
}

pub open spec fn special_types() -> Seq<Seq<char>> {
    seq![
        seq!['i', 'n', 't', 'e', 'g', 'e', 'r'],
        seq!['s', 't', 'r', 'i', 'n', 'g'],
        seq!['b', 'o', 'o', 'l', 'e', 'a', 'n'],
        seq!['d', 'a', 't', 'e'],
        seq!['d', 'a', 't', 'e', 't', 'i', 'm', 'e'],
        seq!['s', 'i', 'n', 'd', 'e', 'x'],
        seq!['i', 'n', 'd', 'e', 'x'],
        seq!['g', 'i', 'n', 'd', 'e', 'x'],
        seq!['c', 'o', 'n', 'f', 'i', 'g'],
        seq!['s', 'y', 's', 't', 'e', 'm'],
    ]
}

/// A primitive hint, an index discipline, one of the special tags, or a
/// text holding `::`; anything else may name a table.
pub open spec fn is_special_type(t: Seq<char>) -> bool {
    dc_pos(t) >= 0 || exists|i: int| 0 <= i < special_types().len() && eq_ignore_case(t, #[trigger] special_types()[i])
}

fn special_type_chars() -> (r: Vec<Vec<char>>)
    ensures
        r@.len() == special_types().len(),
        forall|i: int| 0 <= i < r@.len() ==> (#[trigger] r@[i])@ == special_types()[i],
{
    let r = vec![
        vec!['i', 'n', 't', 'e', 'g', 'e', 'r'],
        vec!['s', 't', 'r', 'i', 'n', 'g'],
        vec!['b', 'o', 'o', 'l', 'e', 'a', 'n'],
        vec!['d', 'a', 't', 'e'],
        vec!['d', 'a', 't', 'e', 't', 'i', 'm', 'e'],
        vec!['s', 'i', 'n', 'd', 'e', 'x'],
        vec!['i', 'n', 'd', 'e', 'x'],
        vec!['g', 'i', 'n', 'd', 'e', 'x'],
        vec!['c', 'o', 'n', 'f', 'i', 'g'],
        vec!['s', 'y', 's', 't', 'e', 'm'],
    ];
    r
}

/// Whether a type tag is primitive or special rather than a table name.
fn is_primitive_or_special_type(type_tag: &[char]) -> (r: bool)
    ensures
        r == is_special_type(type_tag@),
{
    if find_double_colon(type_tag).is_some() {
        return true;
    }
    let kws = special_type_chars();
    let mut i: usize = 0;
    while i < kws.len()
        invariant
            i <= kws@.len(),
            kws@.len() == special_types().len(),
            forall|k: int| 0 <= k < kws@.len() ==> (#[trigger] kws@[k])@ == special_types()[k],
            forall|k: int| 0 <= k < i ==> !eq_ignore_case(type_tag@, #[trigger] special_types()[k]),
            dc_pos(type_tag@) < 0,
        decreases kws@.len() - i,
    {
        if chars_eq_ignore_case(type_tag, &kws[i]) {
            return true;
        }
        i = i + 1;
    }
    false
}

/// Where a query stands: the current table, and the row, value or group
/// of rows reached, with the table whose headers describe the value.
pub struct QState {
    pub table: Seq<char>,
    pub row: Option<Row>,
    pub value: Option<Value>,
    pub group: Option<Seq<Row>>,
    pub structure: Option<Seq<char>>,
}

pub open spec fn deref_opt<T>(o: Option<&T>) -> Option<T> {
    match o {
        Some(x) => Some(*x),
        None => None,
    }
}

pub open spec fn vec_opt(o: Option<Vec<char>>) -> Option<Seq<char>> {
    match o {
        Some(x) => Some(x@),
        None => None,
    }
}

/// Position of the first header named `f`, or `-1`.
pub open spec fn header_pos(hs: Seq<HeaderField>, f: Seq<char>) -> int
    decreases hs.len(),
{
    if hs.len() == 0 {
        -1
    } else {
        let p = header_pos(hs.drop_last(), f);
        if p >= 0 {
            p
        } else if hs.last().name@ == f {
            hs.len() - 1
        } else {
            -1
        }
    }
}

pub open spec fn lookup(es: Seq<(String, Row)>, k: Seq<char>) -> Option<Row> {
    let p = key_pos(es, k);
    if p >= 0 {
        Some(es[p].1)
    } else {
        None
    }
}

pub open spec fn lookup_group(gs: Seq<(String, Vec<Row>)>, k: Seq<char>) -> Option<Seq<Row>> {
    let p = key_pos(gs, k);
    if p >= 0 {
        Some(gs[p].1@)
    } else {
        None
    }
}

/// A column type that names a table of the root, other than the special tags.
pub open spec fn structure_of(root: DslRoot, ty: Option<String>) -> Option<Seq<char>> {
    match ty {
        Some(t) => if root.table(t@) is Some && !is_special_type(t@) {
            Some(t@)
        } else {
            None
        },
        None => None,
    }
}

/// A single-element tuple stands for its element when used as a key.
pub open spec fn unwrap_single(key: Value) -> Value {
    match key {
        Value::Tuple(vs) => if vs@.len() == 1 {
            vs@[0]
        } else {
            key
        },
        _ => key,
    }
}

/// The row of table `t` that `key` designates: a position in sequential
/// data, a canonical key in indexed data.
pub open spec fn deref_row(root: DslRoot, t: Seq<char>, key: Value) -> Option<Row> {
    match root.table(t) {
        None => None,
        Some(tb) => match tb.data {
            TableData::Sequential(rows) => match unwrap_single(key) {
                Value::Integer(i) => if 0 <= i < rows@.len() {
                    Some(rows@[i as int])
                } else {
                    None
                },
                _ => None,
            },
            TableData::Indexed(es) => match canonical_key(unwrap_single(key)@) {
                Some(k) => lookup(es@, k),
                None => None,
            },
            _ => None,
        },
    }
}

pub open spec fn bare(t: Seq<char>) -> QState {
    QState { table: t, row: None, value: None, group: None, structure: None }
}

/// Reading field `f` of row `row` of table `tn`: a reference is followed to
/// its row; any other value becomes current, described by the column's
/// type where that names a table.
pub open spec fn field_result(root: DslRoot, tn: Seq<char>, row: Row, f: Seq<char>) -> Option<QState> {
    match row_get(row, f) {
        None => Some(bare(tn)),
        Some(v) => match v {
            Value::Reference { table: t2, key } => match deref_row(root, t2@, *key) {
                Some(r2) => Some(QState { table: t2@, row: Some(r2), value: None, group: None, structure: None }),
                None => None,
            },
            _ => Some(
                QState {
                    table: tn,
                    row: None,
                    value: Some(v),
                    group: None,
                    structure: match root.table(tn) {
                        Some(tb) => {
                            let hp = header_pos(tb.headers@, f);
                            if hp >= 0 {
                                structure_of(root, tb.headers@[hp].type_info)
                            } else {
                                None
                            }
                        },
                        None => None,
                    },
                },
            ),
        },
    }
}

/// Reading field `f` of the current value: a tuple is projected by the
/// headers of its structure table; a text or integer is followed as a key
/// into that table.
pub open spec fn value_field(root: DslRoot, st: QState, v: Value, f: Seq<char>) -> Option<QState> {
    match st.structure {
        None => None,
        Some(sn) => match root.table(sn) {
            None => None,
            Some(stb) => match v {
                Value::Tuple(es) => {
                    let p = key_pos(stb.header_map@, f);
                    if p < 0 {
                        None
                    } else {
                        let idx = stb.header_map@[p].1 as int;
                        Some(
                            QState {
                                table: st.table,
                                row: None,
                                value: if idx < es@.len() {
                                    Some(es@[idx])
                                } else {
                                    None
                                },
                                group: None,
                                structure: if idx < es@.len() && idx < stb.headers@.len() {
                                    structure_of(root, stb.headers@[idx].type_info)
                                } else {
                                    None
                                },
                            },
                        )
                    }
                },
                Value::String(_) => match deref_row(root, sn, v) {
                    Some(r) => field_result(root, sn, r, f),
                    None => None,
                },
                Value::Integer(_) => match deref_row(root, sn, v) {
                    Some(r) => field_result(root, sn, r, f),
                    None => None,
                },
                _ => None,
            },
        },
    }
}

pub open spec fn is_bracket(tok: Seq<char>) -> bool {
    tok.len() >= 2 && tok[0] == '[' && tok.last() == ']'
}

/// A `[k]` token: an index into the current tuple or group, else a
/// position or key in the current table.
pub open spec fn bracket_step(st: QState, tb: Table, k: Seq<char>) -> Option<QState> {
    if st.value is Some {
        match st.value->0 {
            Value::Tuple(vs) => match parse_index(k) {
                Some(n) => Some(
                    QState {
                        table: st.table,
                        row: None,
                        value: if n < vs@.len() {
                            Some(vs@[n])
                        } else {
                            None
                        },
                        group: None,
                        structure: st.structure,
                    },
                ),
                None => None,
            },
            _ => None,
        }
    } else if st.group is Some {
        match parse_index(k) {
            Some(n) => Some(
                QState {
                    table: st.table,
                    row: if n < st.group->0.len() {
                        Some(st.group->0[n])
                    } else {
                        None
                    },
                    value: None,
                    group: None,
                    structure: st.structure,
                },
            ),
            None => None,
        }
    } else {
        match tb.data {
            TableData::Sequential(rows) => match parse_index(k) {
                Some(n) => Some(
                    QState {
                        table: st.table,
                        row: if n < rows@.len() {
                            Some(rows@[n])
                        } else {
                            None
                        },
                        value: None,
                        group: None,
                        structure: st.structure,
                    },
                ),
                None => None,
            },
            TableData::Indexed(es) => Some(
                QState { table: st.table, row: lookup(es@, k), value: None, group: None, structure: st.structure },
            ),
            _ => None,
        }
    }
}

/// A name token: a field of the current row or value, or, with nothing
/// current, a field of the first row of a sequential table, a key of an
/// indexed table or a group of a grouped one.
pub open spec fn name_step(root: DslRoot, st: QState, tb: Table, f: Seq<char>) -> Option<QState> {
    if st.row is Some {
        field_result(root, st.table, st.row->0, f)
    } else if st.value is Some {
        value_field(root, st, st.value->0, f)
    } else {
        match tb.data {
            TableData::Sequential(rows) => if rows@.len() >= 1 {
                field_result(root, st.table, rows@[0], f)
            } else {
                None
            },
            TableData::Indexed(es) => Some(
                QState { table: st.table, row: lookup(es@, f), value: None, group: st.group, structure: st.structure },
            ),
            TableData::GroupedIndexed(gs) => Some(
                QState { table: st.table, row: None, value: None, group: lookup_group(gs@, f), structure: st.structure },
            ),
            TableData::RawLines(_) => None,
        }
    }
}

/// One token after the first; a step that reaches nothing ends the query
/// unless it is the last.
pub open spec fn step(root: DslRoot, st: QState, tok: Seq<char>, last: bool) -> Option<QState> {
    match root.table(st.table) {
        None => None,
        Some(tb) => {
            let r = if is_bracket(tok) {
                bracket_step(st, tb, tok.subrange(1, tok.len() - 1))
            } else {
                name_step(root, st, tb, tok)
            };
            match r {
                None => None,
                Some(ns) => if !last && ns.row is None && ns.value is None && ns.group is None {
                    None
                } else {
                    Some(ns)
                },
            }
        },
    }
}

/// Position of the last `c` in `s`, or `-1`.
pub open spec fn last_char_pos(s: Seq<char>, c: char) -> int
    decreases s.len(),
{
    if s.len() == 0 {
        -1
    } else if s.last() == c {
        s.len() - 1
    } else {
        last_char_pos(s.drop_last(), c)
    }
}

/// The first token: a table name, or `table{key}` on an indexed table.
pub open spec fn first_step(root: DslRoot, tok: Seq<char>, last: bool) -> Option<QState> {
    let b = char_pos(tok, '{');
    if b >= 0 {
        let c = last_char_pos(tok, '}');
        if c >= 0 && b < c && b > 0 {
            let tn = tok.take(b);
            match root.table(tn) {
                Some(t) => match t.data {
                    TableData::Indexed(es) => {
                        let row = lookup(es@, tok.subrange(b + 1, c));
                        if row is None && !last {
                            None
                        } else {
                            Some(QState { table: tn, row: row, value: None, group: None, structure: None })
                        }
                    },
                    _ => None,
                },
                None => None,
            }
        } else {
            None
        }
    } else {
        match root.table(tok) {
            Some(_) => Some(bare(tok)),
            None => None,
        }
    }
}

pub open spec fn run_from(root: DslRoot, st: QState, toks: Seq<Seq<char>>, i: int) -> Option<QState>
    decreases toks.len() - i,
{
    if i >= toks.len() {
        Some(st)
    } else {
        match step(root, st, toks[i], i == toks.len() - 1) {
            Some(ns) => run_from(root, ns, toks, i + 1),
            None => None,
        }
    }
}

/// The value a path query reaches, or `None` for not found.
pub open spec fn query(root: DslRoot, q: Seq<char>) -> Option<Value> {
    match tokenize(q) {
        Some(toks) => if toks.len() == 0 {
            None
        } else {
            match first_step(root, toks[0], toks.len() == 1) {
                Some(st) => match run_from(root, st, toks, 1) {
                    Some(fs) => fs.value,
                    None => None,
                },
                None => None,
            }
        },
        None => None,
    }
}

/// The executable counterpart of [`QState`].
struct Cursor<'a> {
    table: Vec<char>,
    row: Option<&'a Row>,
    value: Option<&'a Value>,
    group: Option<&'a Vec<Row>>,
    structure: Option<Vec<char>>,
}

impl<'a> Cursor<'a> {
    spec fn view(&self) -> QState {
        QState {
            table: self.table@,
            row: deref_opt(self.row),
            value: deref_opt(self.value),
            group: match self.group {
                Some(g) => Some(g@),
                None => None,
            },
            structure: vec_opt(self.structure),
        }
    }
}

fn copy_chars(v: &[char]) -> (r: Vec<char>)
    ensures
        r@ == v@,
{
    let r = slice_of(v, 0, v.len());
    assert(v@.subrange(0, v@.len() as int) == v@);
    r
}

fn lookup_row<'a>(es: &'a Vec<(String, Row)>, k: &[char]) -> (r: Option<&'a Row>)
    ensures
        deref_opt(r) == lookup(es@, k@),
{
    let ks = string_of(k);
    match find_key(es, ks.as_str()) {
        Some(p) => Some(&es[p].1),
        None => None,
    }
}

fn lookup_group_exec<'a>(gs: &'a Vec<(String, Vec<Row>)>, k: &[char]) -> (r: Option<&'a Vec<Row>>)
    ensures
        match r {
            Some(g) => lookup_group(gs@, k@) == Some(g@),
            None => lookup_group(gs@, k@) is None,
        },
{
    let ks = string_of(k);
    match find_key(gs, ks.as_str()) {
        Some(p) => Some(&gs[p].1),
        None => None,
    }
}

fn table_of<'a>(root: &'a DslRoot, t: &[char]) -> (r: Option<&'a Table>)
    ensures
        deref_opt(r) == root.table(t@),
{
    let ts = string_of(t);
    root.get(ts.as_str())
}

proof fn lemma_header_pos(hs: Seq<HeaderField>, f: Seq<char>)
    ensures
        -1 <= header_pos(hs, f) < hs.len(),
        header_pos(hs, f) >= 0 ==> hs[header_pos(hs, f)].name@ == f,
        forall|j: int| 0 <= j < hs.len() && (header_pos(hs, f) < 0 || j < header_pos(hs, f)) ==> hs[j].name@ != f,
    decreases hs.len(),
{
    if hs.len() > 0 {
        lemma_header_pos(hs.drop_last(), f);
        assert forall|j: int| 0 <= j < hs.len() - 1 implies hs[j] == hs.drop_last()[j] by {}
    }
}

fn find_header(hs: &Vec<HeaderField>, f: &[char]) -> (r: Option<usize>)
    ensures
        match r {
            Some(p) => p == header_pos(hs@, f@) && p < hs@.len(),
            None => header_pos(hs@, f@) == -1,
        },
{
    let mut i: usize = 0;
    while i < hs.len()
        invariant
            i <= hs@.len(),
            header_pos(hs@.take(i as int), f@) == -1,
        decreases hs@.len() - i,
    {
        assert(hs@.take(i + 1).drop_last() == hs@.take(i as int));
        let nc = chars_of(hs[i].name.as_str());
        if chars_eq(&nc, f) {
            proof {
                lemma_header_pos(hs@, f@);
                assert forall|j: int| 0 <= j < i implies hs@[j].name@ != f@ by {
                    lemma_header_pos(hs@.take(i as int), f@);
                    assert(hs@.take(i as int)[j] == hs@[j]);
                }
            }
            return Some(i);
        }
        i = i + 1;
    }
    assert(hs@.take(i as int) == hs@);
    None
}

fn structure_exec(root: &DslRoot, ty: &Option<String>) -> (r: Option<Vec<char>>)
    ensures
        vec_opt(r) == structure_of(*root, *ty),
{
    match ty {
        Some(t) => {
            let tc = chars_of(t.as_str());
            if root.contains_key(t.as_str()) && !is_primitive_or_special_type(&tc) {
                Some(tc)
            } else {
                None
            }
        },
        None => None,
    }
}

fn unwrap_single_exec(key: &Value) -> (r: &Value)
    ensures
        *r == unwrap_single(*key),
{
    match key {
        Value::Tuple(vs) => {
            if vs.len() == 1 {
                &vs[0]
            } else {
                key
            }
        },
        _ => key,
    }
}

fn deref_exec<'a>(root: &'a DslRoot, t: &[char], key: &Value) -> (r: Option<&'a Row>)
    ensures
        deref_opt(r) == deref_row(*root, t@, *key),
{
    let tb = match table_of(root, t) {
        Some(tb) => tb,
        None => {
            return None;
        },
    };
    let k = unwrap_single_exec(key);
    match &tb.data {
        TableData::Sequential(rows) => match k {
            Value::Integer(i) => {
                if *i >= 0 && (*i as u64 as u128) < (rows.len() as u128) {
                    Some(&rows[*i as usize])
                } else {
                    None
                }
            },
            _ => None,
        },
        TableData::Indexed(es) => match value_to_string_key(k) {
            Ok(ks) => {
                let kc = chars_of(ks.as_str());
                lookup_row(es, &kc)
            },
            Err(_) => None,
        },
        _ => None,
    }
}

fn field_result_exec<'a>(root: &'a DslRoot, tn: &[char], row: &'a Row, f: &[char]) -> (r: Option<Cursor<'a>>)
    ensures
        match r {
            Some(c) => field_result(*root, tn@, *row, f@) == Some(c.view()),
            None => field_result(*root, tn@, *row, f@) is None,
        },
{
    let fs = string_of(f);
    let p = match find_key(&row.fields, fs.as_str()) {
        Some(p) => p,
        None => {
            return Some(
                Cursor { table: copy_chars(tn), row: None, value: None, group: None, structure: None },
            );
        },
    };
    let v = &row.fields[p].1;
    match v {
        Value::Reference { table: t2, key } => {
            let t2c = chars_of(t2.as_str());
            match deref_exec(root, &t2c, key) {
                Some(r2) => Some(Cursor { table: t2c, row: Some(r2), value: None, group: None, structure: None }),
                None => None,
            }
        },
        _ => {
            let structure = match table_of(root, tn) {
                Some(tb) => match find_header(&tb.headers, f) {
                    Some(hp) => structure_exec(root, &tb.headers[hp].type_info),
                    None => None,
                },
                None => None,
            };
            Some(Cursor { table: copy_chars(tn), row: None, value: Some(v), group: None, structure })
        },
    }
}

fn value_field_exec<'a>(root: &'a DslRoot, cur: &Cursor<'a>, v: &'a Value, f: &[char]) -> (r: Option<Cursor<'a>>)
    ensures
        match r {
            Some(c) => value_field(*root, cur.view(), *v, f@) == Some(c.view()),
            None => value_field(*root, cur.view(), *v, f@) is None,
        },
{
    let sn = match &cur.structure {
        Some(sn) => sn,
        None => {
            return None;
        },
    };
    let stb = match table_of(root, sn) {
        Some(t) => t,
        None => {
            return None;
        },
    };
    match v {
        Value::Tuple(es) => {
            let fs = string_of(f);
            match find_key(&stb.header_map, fs.as_str()) {
                None => None,
                Some(p) => {
                    let idx = stb.header_map[p].1;
                    let value = if idx < es.len() {
                        Some(&es[idx])
                    } else {
                        None
                    };
                    let structure = if idx < es.len() && idx < stb.headers.len() {
                        structure_exec(root, &stb.headers[idx].type_info)
                    } else {
                        None
                    };
                    Some(Cursor { table: copy_chars(&cur.table), row: None, value, group: None, structure })
                },
            }
        },
        Value::String(_) | Value::Integer(_) => match deref_exec(root, sn, v) {
            Some(r) => field_result_exec(root, sn, r, f),
            None => None,
        },
        _ => None,
    }
}

fn bracket_exec<'a>(cur: Cursor<'a>, tb: &'a Table, k: &[char]) -> (r: Option<Cursor<'a>>)
    ensures
        match r {
            Some(c) => bracket_step(cur.view(), *tb, k@) == Some(c.view()),
            None => bracket_step(cur.view(), *tb, k@) is None,
        },
{
    if let Some(v) = cur.value {
        match v {
            Value::Tuple(vs) => match parse_usize(k) {
                Some(n) => {
                    let value = if n < vs.len() {
                        Some(&vs[n])
                    } else {
                        None
                    };
                    Some(Cursor { table: cur.table, row: None, value, group: None, structure: cur.structure })
                },
                None => None,
            },
            _ => None,
        }
    } else if let Some(g) = cur.group {
        match parse_usize(k) {
            Some(n) => {
                let row = if n < g.len() {
                    Some(&g[n])
                } else {
                    None
                };
                Some(Cursor { table: cur.table, row, value: None, group: None, structure: cur.structure })
            },
            None => None,
        }
    } else {
        match &tb.data {
            TableData::Sequential(rows) => match parse_usize(k) {
                Some(n) => {
                    let row = if n < rows.len() {
                        Some(&rows[n])
                    } else {
                        None
                    };
                    Some(Cursor { table: cur.table, row, value: None, group: None, structure: cur.structure })
                },
                None => None,
            },
            TableData::Indexed(es) => {
                let row = lookup_row(es, k);
                Some(Cursor { table: cur.table, row, value: None, group: None, structure: cur.structure })
            },
            _ => None,
        }
    }
}

fn name_exec<'a>(root: &'a DslRoot, cur: Cursor<'a>, tb: &'a Table, f: &[char]) -> (r: Option<Cursor<'a>>)
    ensures
        match r {
            Some(c) => name_step(*root, cur.view(), *tb, f@) == Some(c.view()),
            None => name_step(*root, cur.view(), *tb, f@) is None,
        },
{
    if let Some(row) = cur.row {
        field_result_exec(root, &cur.table, row, f)
    } else if let Some(v) = cur.value {
        value_field_exec(root, &cur, v, f)
    } else {
        match &tb.data {
            TableData::Sequential(rows) => {
                if rows.len() >= 1 {
                    field_result_exec(root, &cur.table, &rows[0], f)
                } else {
                    None
                }
            },
            TableData::Indexed(es) => {
                let row = lookup_row(es, f);
                Some(Cursor { table: cur.table, row, value: None, group: cur.group, structure: cur.structure })
            },
            TableData::GroupedIndexed(gs) => {
                let group = lookup_group_exec(gs, f);
                Some(Cursor { table: cur.table, row: None, value: None, group, structure: cur.structure })
            },
            TableData::RawLines(_) => None,
        }
    }
}

fn step_exec<'a>(root: &'a DslRoot, cur: Cursor<'a>, tok: &[char], last: bool) -> (r: Option<Cursor<'a>>)
    ensures
        match r {
            Some(c) => step(*root, cur.view(), tok@, last) == Some(c.view()),
            None => step(*root, cur.view(), tok@, last) is None,
        },
{
    let ghost st = cur.view();
    let tb = match table_of(root, &cur.table) {
        Some(t) => t,
        None => {
            return None;
        },
    };
    let r = if tok.len() >= 2 && tok[0] == '[' && tok[tok.len() - 1] == ']' {
        let k = slice_of(tok, 1, tok.len() - 1);
        bracket_exec(cur, tb, &k)
    } else {
        name_exec(root, cur, tb, tok)
    };
    match r {
        None => None,
        Some(ns) => {
            if !last && ns.row.is_none() && ns.value.is_none() && ns.group.is_none() {
                None
            } else {
                Some(ns)
            }
        },
    }
}

proof fn lemma_last_char_pos(s: Seq<char>, c: char)
    ensures
        -1 <= last_char_pos(s, c) < s.len(),
        last_char_pos(s, c) >= 0 ==> s[last_char_pos(s, c)] == c,
    decreases s.len(),
{
    if s.len() > 0 && s.last() != c {
        lemma_last_char_pos(s.drop_last(), c);
    }
}

fn find_last_char(v: &[char], c: char) -> (r: Option<usize>)
    ensures
        match r {
            Some(p) => p == last_char_pos(v@, c) && p < v@.len(),
            None => last_char_pos(v@, c) == -1,
        },
{
    let mut i: usize = v.len();
    assert(v@.take(v@.len() as int) == v@);
    while i > 0
        invariant
            i <= v@.len(),
            last_char_pos(v@, c) == last_char_pos(v@.take(i as int), c),
        decreases i,
    {
        assert(v@.take(i as int).drop_last() == v@.take(i - 1));
        if v[i - 1] == c {
            return Some(i - 1);
        }
        i = i - 1;
    }
    None
}

fn first_exec<'a>(root: &'a DslRoot, tok: &[char], last: bool) -> (r: Option<Cursor<'a>>)
    ensures
        match r {
            Some(c) => first_step(*root, tok@, last) == Some(c.view()),
            None => first_step(*root, tok@, last) is None,
        },
{
    match find_char(tok, '{') {
        Some(b) => {
            let c = match find_last_char(tok, '}') {
                Some(c) => c,
                None => {
                    return None;
                },
            };
            if !(b < c && b > 0) {
                return None;
            }
            let tn = slice_of(tok, 0, b);
            assert(tn@ == tok@.take(b as int));
            let t = match table_of(root, &tn) {
                Some(t) => t,
                None => {
                    return None;
                },
            };
            match &t.data {
                TableData::Indexed(es) => {
                    let k = slice_of(tok, b + 1, c);
                    let row = lookup_row(es, &k);
                    if row.is_none() && !last {
                        None
                    } else {
                        Some(Cursor { table: tn, row, value: None, group: None, structure: None })
                    }
                },
                _ => None,
            }
        },
        None => {
            if table_of(root, tok).is_some() {
                Some(Cursor { table: copy_chars(tok), row: None, value: None, group: None, structure: None })
            } else {
                None
            }
        },
    }
}

/// Follows a path `#.table...` through the root. Returns the value reached,
/// or `None` when the path is malformed or any step finds nothing.
pub fn execute_query<'a>(root: &'a DslRoot, query_path_str: &str) -> (r: Option<&'a Value>)
    ensures
        deref_opt(r) == query(*root, query_path_str@),
{
    let toks = match tokenize_query_path(query_path_str) {
        Ok(t) => t,
        Err(_) => {
            return None;
        },
    };
    let ghost ts = tokenize(query_path_str@)->0;
    assert(toks@.len() == ts.len());
    if toks.len() == 0 {
        return None;
    }
    assert(toks@[0]@ == ts[0]);
    let mut cur = match first_exec(root, &toks[0], toks.len() == 1) {
        Some(c) => c,
        None => {
            return None;
        },
    };
    let mut i: usize = 1;
    while i < toks.len()
        invariant
            1 <= i <= toks@.len(),
            toks@.len() == ts.len(),
            forall|j: int| 0 <= j < ts.len() ==> (#[trigger] toks@[j])@ == ts[j],
            ts == tokenize(query_path_str@)->0,
            tokenize(query_path_str@) is Some,
            ts.len() > 0,
            first_step(*root, ts[0], ts.len() == 1) is Some,
            run_from(*root, first_step(*root, ts[0], ts.len() == 1)->0, ts, 1) == run_from(*root, cur.view(), ts, i as int),
        decreases toks@.len() - i,
    {
        let last = i == toks.len() - 1;
        match step_exec(root, cur, &toks[i], last) {
            Some(ns) => {
                cur = ns;
            },
            None => {
                return None;
            },
        }
        i = i + 1;
    }
    cur.value
}

/// The value slot an update path designates: a table, a row (a position
/// in sequential data or an entry of indexed data), a field, and possibly
/// an element of a tuple field.
pub struct Plan {
    pub ti: usize,
    pub keyed: bool,
    pub ri: usize,
    pub fi: usize,
    pub ei: Option<usize>,
}

pub open spec fn plan_row(root: DslRoot, p: Plan) -> Row {
    let t = root.tables@[p.ti as int];
    if p.keyed {
        t.data->Indexed_0@[p.ri as int].1
    } else {
        t.data->Sequential_0@[p.ri as int]
    }
}

/// The value currently in the planned slot.
pub open spec fn plan_value(root: DslRoot, p: Plan) -> Value {
    let v = plan_row(root, p).fields@[p.fi as int].1;
    match p.ei {
        Some(e) => v->Tuple_0@[e as int],
        None => v,
    }
}

/// The row an update path's second token selects, with the index of the
/// token naming the field.
pub open spec fn locate_row(t: Table, toks: Seq<Seq<char>>) -> Option<(bool, int, int)> {
    if is_bracket(toks[1]) {
        let k = toks[1].subrange(1, toks[1].len() - 1);
        match t.data {
            TableData::Sequential(rows) => match parse_index(k) {
                Some(n) => if n < rows@.len() {
                    Some((false, n, 2int))
                } else {
                    None
                },
                None => None,
            },
            TableData::Indexed(es) => {
                let p = key_pos(es@, k);
                if p >= 0 && toks.len() > 2 {
                    Some((true, p, 2int))
                } else {
                    None
                }
            },
            _ => None,
        }
    } else {
        match t.data {
            TableData::Sequential(rows) => if rows@.len() == 1 {
                Some((false, 0int, 1int))
            } else {
                None
            },
            _ => None,
        }
    }
}

/// The slot of an update path `table[i].field`, `table[key].field` or
/// `table.field` (single-row sequential table), with an optional tuple
/// index `[n]`; `None` where the path does not designate one.
pub open spec fn locate(root: DslRoot, toks: Seq<Seq<char>>) -> Option<Plan> {
    if toks.len() < 2 {
        None
    } else {
        let ti = table_pos(root.tables@, toks[0]);
        if ti < 0 {
            None
        } else {
            let t = root.tables@[ti];
            match locate_row(t, toks) {
                None => None,
                Some((keyed, ri, next)) => {
                    let row = if keyed {
                        t.data->Indexed_0@[ri].1
                    } else {
                        t.data->Sequential_0@[ri]
                    };
                    if next >= toks.len() {
                        None
                    } else {
                        let fp = key_pos(row.fields@, toks[next]);
                        if fp < 0 || row.fields@[fp].1 is Reference || fp == pk_pos(t.headers@) {
                            None
                        } else if ti > usize::MAX || ri > usize::MAX || fp > usize::MAX {
                            None
                        } else if next + 1 < toks.len() {
                            let tk = toks[next + 1];
                            if !is_bracket(tk) || next + 2 < toks.len() {
                                None
                            } else {
                                match parse_index(tk.subrange(1, tk.len() - 1)) {
                                    Some(e) => match row.fields@[fp].1 {
                                        Value::Tuple(vs) => if e < vs@.len() {
                                            Some(Plan { ti: ti as usize, keyed, ri: ri as usize, fi: fp as usize, ei: Some(e as usize) })
                                        } else {
                                            None
                                        },
                                        _ => None,
                                    },
                                    None => None,
                                }
                            }
                        } else {
                            Some(Plan { ti: ti as usize, keyed, ri: ri as usize, fi: fp as usize, ei: None })
                        }
                    }
                },
            }
        }
    }
}

/// The type hint of the planned field's column.
pub open spec fn plan_hint(root: DslRoot, p: Plan) -> Option<Seq<char>> {
    let t = root.tables@[p.ti as int];
    let f = plan_row(root, p).fields@[p.fi as int].0@;
    let hp = header_pos(t.headers@, f);
    if hp >= 0 {
        opt_view(t.headers@[hp].type_info)
    } else {
        None
    }
}

pub open spec fn same_kind(a: ValueModel, b: ValueModel) -> bool {
    match (a, b) {
        (ValueModel::Str(_), ValueModel::Str(_)) => true,
        (ValueModel::Int(_), ValueModel::Int(_)) => true,
        (ValueModel::Tuple(_), ValueModel::Tuple(_)) => true,
        (ValueModel::Ref(_, _), ValueModel::Ref(_, _)) => true,
        (ValueModel::Null, ValueModel::Null) => true,
        _ => false,
    }
}

/// What an update stores over `target`, or `None` for a type mismatch:
/// integer text over an integer becomes an integer; other text over an
/// integer is kept only without a hint or under `string`; an integer over
/// text becomes its decimal text unless the column is `integer`; a change
/// of kind is refused under a hint unless `Null` is involved.
pub open spec fn coerce(target: ValueModel, nv: ValueModel, hint: Option<Seq<char>>) -> Option<ValueModel> {
    match (target, nv) {
        (ValueModel::Int(_), ValueModel::Str(s)) => match crate::text::parse_int(s) {
            Some(i) => Some(ValueModel::Int(i)),
            None => if hint is None || hint == Some(crate::parser::kw_string()) {
                Some(nv)
            } else {
                None
            },
        },
        (ValueModel::Str(_), ValueModel::Int(i)) => if hint == Some(crate::parser::kw_integer()) {
            Some(nv)
        } else {
            Some(ValueModel::Str(crate::text::int_dec(i)))
        },
        _ => if !same_kind(target, nv) && !(target is Null) && !(nv is Null) && hint is Some {
            None
        } else {
            Some(nv)
        },
    }
}

pub open spec fn update_prefix() -> Seq<char> {
    seq!['#', '.']
}

/// The slot an update writes and the value it stores, or `None` where the
/// update fails.
pub open spec fn update_effect(root: DslRoot, path: Seq<char>, text: Seq<char>) -> Option<(Plan, ValueModel)> {
    match tokenize(update_prefix() + path) {
        None => None,
        Some(toks) => match locate(root, toks) {
            None => None,
            Some(p) => {
                let hint = plan_hint(root, p);
                match coerce(plan_value(root, p)@, crate::parser::parse_value(text, hint), hint) {
                    Some(v) => Some((p, v)),
                    None => None,
                }
            },
        },
    }
}

/// Two rows agree but on field `fi`, whose name is kept.
pub open spec fn row_changed_at(a: Row, b: Row, fi: int) -> bool {
    &&& b.fields@.len() == a.fields@.len()
    &&& forall|k: int| 0 <= k < a.fields@.len() && k != fi ==> b.fields@[k] == a.fields@[k]
    &&& b.fields@[fi].0 == a.fields@[fi].0
}

/// The value in a slot after the write: `v` itself, or the tuple with
/// element `ei` replaced by `v`.
pub open spec fn slot_written(old_v: Value, new_v: Value, ei: Option<usize>, v: ValueModel) -> bool {
    match ei {
        None => new_v@ == v,
        Some(e) => match (old_v, new_v) {
            (Value::Tuple(a), Value::Tuple(b)) => b@.len() == a@.len() && (forall|k: int|
                0 <= k < a@.len() && k != e ==> b@[k] == a@[k]) && b@[e as int]@ == v,
            _ => false,
        },
    }
}

/// `b` is `a` with the planned slot holding `v`, all else unchanged.
pub open spec fn replaced(a: DslRoot, b: DslRoot, p: Plan, v: ValueModel) -> bool {
    let ta = a.tables@[p.ti as int];
    let tb = b.tables@[p.ti as int];
    &&& b.tables@.len() == a.tables@.len()
    &&& forall|t: int| 0 <= t < a.tables@.len() && t != p.ti ==> b.tables@[t] == a.tables@[t]
    &&& tb.name == ta.name && tb.headers == ta.headers && tb.header_map == ta.header_map
        && tb.primary_key_field_name == ta.primary_key_field_name
    &&& if p.keyed {
        &&& ta.data is Indexed && tb.data is Indexed
        &&& tb.data->Indexed_0@.len() == ta.data->Indexed_0@.len()
        &&& forall|k: int| 0 <= k < ta.data->Indexed_0@.len() && k != p.ri ==> tb.data->Indexed_0@[k] == ta.data->Indexed_0@[k]
        &&& tb.data->Indexed_0@[p.ri as int].0 == ta.data->Indexed_0@[p.ri as int].0
    } else {
        &&& ta.data is Sequential && tb.data is Sequential
        &&& tb.data->Sequential_0@.len() == ta.data->Sequential_0@.len()
        &&& forall|k: int| 0 <= k < ta.data->Sequential_0@.len() && k != p.ri ==> tb.data->Sequential_0@[k] == ta.data->Sequential_0@[k]
    }
    &&& row_changed_at(plan_row(a, p), plan_row(b, p), p.fi as int)
    &&& slot_written(plan_row(a, p).fields@[p.fi as int].1, plan_row(b, p).fields@[p.fi as int].1, p.ei, v)
}

/// A located slot lies within the root.
pub open spec fn plan_valid(root: DslRoot, p: Plan) -> bool {
    let t = root.tables@[p.ti as int];
    &&& p.ti < root.tables@.len()
    &&& p.keyed ==> t.data is Indexed && p.ri < t.data->Indexed_0@.len()
    &&& !p.keyed ==> t.data is Sequential && p.ri < t.data->Sequential_0@.len()
    &&& p.fi < plan_row(root, p).fields@.len()
    &&& p.ei matches Some(e) ==> plan_row(root, p).fields@[p.fi as int].1 matches Value::Tuple(vs) && e < vs@.len()
}

proof fn lemma_locate_valid(root: DslRoot, ts: Seq<Seq<char>>)
    requires
        locate(root, ts) is Some,
    ensures
        plan_valid(root, locate(root, ts)->0),
{
    lemma_table_pos(root.tables@, ts[0]);
    let ti = table_pos(root.tables@, ts[0]);
    let t = root.tables@[ti];
    let (keyed, ri, next) = locate_row(t, ts)->0;
    if is_bracket(ts[1]) {
        crate::text::lemma_parse_index_nonneg(ts[1].subrange(1, ts[1].len() - 1));
        match t.data {
            TableData::Indexed(es) => {
                lemma_key_pos(es@, ts[1].subrange(1, ts[1].len() - 1));
            },
            _ => {},
        }
    }
    if next + 1 < ts.len() {
        crate::text::lemma_parse_index_nonneg(ts[next + 1].subrange(1, ts[next + 1].len() - 1));
    }
    let row = if keyed {
        t.data->Indexed_0@[ri].1
    } else {
        t.data->Sequential_0@[ri]
    };
    lemma_key_pos(row.fields@, ts[next]);
    let p = locate(root, ts)->0;
    assert(p.ri as int == ri);
    assert(plan_row(root, p) == row);
}

fn locate_exec(root: &DslRoot, toks: &Vec<Vec<char>>, Ghost(ts): Ghost<Seq<Seq<char>>>) -> (r: Result<Plan, String>)
    requires
        toks@.len() == ts.len(),
        forall|j: int| 0 <= j < ts.len() ==> (#[trigger] toks@[j])@ == ts[j],
    ensures
        match r {
            Ok(p) => locate(*root, ts) == Some(p),
            Err(_) => locate(*root, ts) is None,
        },
{
    if toks.len() < 2 {
        return Err("Update path must name a table and a field.".to_string());
    }
    let ti = match root.position(string_of(&toks[0]).as_str()) {
        Some(ti) => ti,
        None => {
            return Err(message("Table not found: ", string_of(&toks[0]).as_str()));
        },
    };
    let t = &root.tables[ti];
    let t1 = &toks[1];
    let (keyed, ri, next): (bool, usize, usize) = if t1.len() >= 2 && t1[0] == '[' && t1[t1.len() - 1] == ']' {
        let k = slice_of(t1, 1, t1.len() - 1);
        match &t.data {
            TableData::Sequential(rows) => match parse_usize(&k) {
                Some(n) => {
                    if n < rows.len() {
                        (false, n, 2)
                    } else {
                        return Err("Row index out of bounds.".to_string());
                    }
                },
                None => {
                    return Err("Invalid sequential index.".to_string());
                },
            },
            TableData::Indexed(es) => {
                match find_key(es, string_of(&k).as_str()) {
                    Some(p) => {
                        if toks.len() > 2 {
                            (true, p, 2)
                        } else {
                            return Err("Cannot update an entire row; specify a field.".to_string());
                        }
                    },
                    None => {
                        return Err("Key not found in indexed table.".to_string());
                    },
                }
            },
            TableData::GroupedIndexed(_) => {
                return Err("Updating grouped table data is not supported.".to_string());
            },
            TableData::RawLines(_) => {
                return Err("Cannot update a table whose data is not parsed.".to_string());
            },
        }
    } else {
        match &t.data {
            TableData::Sequential(rows) => {
                if rows.len() == 1 {
                    (false, 0, 1)
                } else {
                    return Err("Direct field access needs a single-row sequential table.".to_string());
                }
            },
            _ => {
                return Err("Direct field access needs a single-row sequential table.".to_string());
            },
        }
    };
    assert(locate_row(*t, ts) == Some((keyed, ri as int, next as int)));
    if next >= toks.len() {
        return Err("Update path does not name a field.".to_string());
    }
    let row: &Row = if keyed {
        match &t.data {
            TableData::Indexed(es) => &es[ri].1,
            _ => vstd::pervasive::unreached(),
        }
    } else {
        match &t.data {
            TableData::Sequential(rows) => &rows[ri],
            _ => vstd::pervasive::unreached(),
        }
    };
    let fp = match find_key(&row.fields, string_of(&toks[next]).as_str()) {
        Some(fp) => fp,
        None => {
            return Err(message("Field not found: ", string_of(&toks[next]).as_str()));
        },
    };
    if let Value::Reference { .. } = &row.fields[fp].1 {
        return Err("Updating through a reference field is not supported.".to_string());
    }
    match key_header_position(&t.headers) {
        Some(kp) => {
            if kp == fp {
                return Err("The primary key field of a row cannot be updated.".to_string());
            }
        },
        None => {},
    }
    if next + 1 < toks.len() {
        let tk = &toks[next + 1];
        if !(tk.len() >= 2 && tk[0] == '[' && tk[tk.len() - 1] == ']') || next + 2 < toks.len() {
            return Err("Unexpected path segment after field.".to_string());
        }
        let inner = slice_of(tk, 1, tk.len() - 1);
        match parse_usize(&inner) {
            Some(e) => match &row.fields[fp].1 {
                Value::Tuple(vs) => {
                    if e < vs.len() {
                        Ok(Plan { ti, keyed, ri, fi: fp, ei: Some(e) })
                    } else {
                        Err("Tuple index out of bounds.".to_string())
                    }
                },
                _ => Err("Field is not a tuple.".to_string()),
            },
            None => Err("Invalid tuple index.".to_string()),
        }
    } else {
        Ok(Plan { ti, keyed, ri, fi: fp, ei: None })
    }
}

fn same_kind_exec(a: &Value, b: &Value) -> (r: bool)
    ensures
        r == same_kind(a@, b@),
{
    match (a, b) {
        (Value::String(_), Value::String(_)) => true,
        (Value::Integer(_), Value::Integer(_)) => true,
        (Value::Tuple(_), Value::Tuple(_)) => true,
        (Value::Reference { .. }, Value::Reference { .. }) => true,
        (Value::Null, Value::Null) => true,
        _ => false,
    }
}

fn coerce_exec(target: &Value, nv: Value, hint: &Option<Vec<char>>) -> (r: Option<Value>)
    ensures
        match r {
            Some(x) => coerce(target@, nv@, vec_opt(*hint)) == Some(x@),
            None => coerce(target@, nv@, vec_opt(*hint)) is None,
        },
{
    let hint_is_string = match hint {
        Some(h) => chars_eq(h, &vec!['s', 't', 'r', 'i', 'n', 'g']),
        None => false,
    };
    let hint_is_integer = match hint {
        Some(h) => chars_eq(h, &vec!['i', 'n', 't', 'e', 'g', 'e', 'r']),
        None => false,
    };
    match (target, &nv) {
        (Value::Integer(_), Value::String(s)) => {
            match crate::text::parse_i64(&chars_of(s.as_str())) {
                Some(i) => Some(Value::Integer(i)),
                None => {
                    if hint.is_none() || hint_is_string {
                        Some(nv)
                    } else {
                        None
                    }
                },
            }
        },
        (Value::String(_), Value::Integer(i)) => {
            if hint_is_integer {
                Some(nv)
            } else {
                let mut out: Vec<char> = Vec::new();
                crate::text::push_int(*i, &mut out);
                Some(Value::String(string_of(&out)))
            }
        },
        _ => {
            let target_null = matches!(target, Value::Null);
            let new_null = matches!(nv, Value::Null);
            if !same_kind_exec(target, &nv) && !target_null && !new_null && hint.is_some() {
                None
            } else {
                Some(nv)
            }
        },
    }
}

fn write_in_row(row: &mut Row, fi: usize, ei: Option<usize>, v: Value)
    requires
        fi < old(row).fields@.len(),
        ei matches Some(e) ==> old(row).fields@[fi as int].1 matches Value::Tuple(vs) && e < vs@.len(),
    ensures
        row_changed_at(*old(row), *final(row), fi as int),
        slot_written(old(row).fields@[fi as int].1, final(row).fields@[fi as int].1, ei, v@),
{
    let ghost vm = v@;
    let slot = &mut row.fields[fi].1;
    match ei {
        None => {
            *slot = v;
        },
        Some(e) => {
            match slot {
                Value::Tuple(vs) => {
                    vs.set(e, v);
                },
                _ => {},
            }
        },
    }
}

fn write_in_table(t: &mut Table, keyed: bool, ri: usize, fi: usize, ei: Option<usize>, v: Value)
    requires
        keyed ==> old(t).data is Indexed && ri < old(t).data->Indexed_0@.len(),
        !keyed ==> old(t).data is Sequential && ri < old(t).data->Sequential_0@.len(),
        fi < (if keyed { old(t).data->Indexed_0@[ri as int].1 } else { old(t).data->Sequential_0@[ri as int] }).fields@.len(),
        ei matches Some(e) ==> (if keyed { old(t).data->Indexed_0@[ri as int].1 } else { old(t).data->Sequential_0@[ri as int] }).fields@[fi as int].1 matches Value::Tuple(vs) && e < vs@.len(),
    ensures
        final(t).name == old(t).name && final(t).headers == old(t).headers && final(t).header_map == old(t).header_map
            && final(t).primary_key_field_name == old(t).primary_key_field_name,
        keyed ==> final(t).data is Indexed && final(t).data->Indexed_0@.len() == old(t).data->Indexed_0@.len()
            && (forall|k: int| 0 <= k < old(t).data->Indexed_0@.len() && k != ri ==> final(t).data->Indexed_0@[k] == old(t).data->Indexed_0@[k])
            && final(t).data->Indexed_0@[ri as int].0 == old(t).data->Indexed_0@[ri as int].0
            && row_changed_at(old(t).data->Indexed_0@[ri as int].1, final(t).data->Indexed_0@[ri as int].1, fi as int)
            && slot_written(old(t).data->Indexed_0@[ri as int].1.fields@[fi as int].1, final(t).data->Indexed_0@[ri as int].1.fields@[fi as int].1, ei, v@),
        !keyed ==> final(t).data is Sequential && final(t).data->Sequential_0@.len() == old(t).data->Sequential_0@.len()
            && (forall|k: int| 0 <= k < old(t).data->Sequential_0@.len() && k != ri ==> final(t).data->Sequential_0@[k] == old(t).data->Sequential_0@[k])
            && row_changed_at(old(t).data->Sequential_0@[ri as int], final(t).data->Sequential_0@[ri as int], fi as int)
            && slot_written(old(t).data->Sequential_0@[ri as int].fields@[fi as int].1, final(t).data->Sequential_0@[ri as int].fields@[fi as int].1, ei, v@),
{
    match &mut t.data {
        TableData::Indexed(es) => {
            write_in_row(&mut es[ri].1, fi, ei, v);
        },
        TableData::Sequential(rows) => {
            write_in_row(&mut rows[ri], fi, ei, v);
        },
        _ => {},
    }
}

proof fn lemma_replaced_wf(a: DslRoot, b: DslRoot, p: Plan, v: ValueModel)
    requires
        a.wf(),
        plan_valid(a, p),
        replaced(a, b, p, v),
    ensures
        b.wf(),
{
    let ta = a.tables@[p.ti as int];
    let tb = b.tables@[p.ti as int];
    assert forall|i: int, j: int| 0 <= i < j < b.tables@.len() implies (#[trigger] b.tables@[i]).name@ != (#[trigger] b.tables@[j]).name@ by {
        assert(b.tables@[i].name == a.tables@[i].name);
        assert(b.tables@[j].name == a.tables@[j].name);
    }
    assert(ta.wf());
    if p.keyed {
        let ea = ta.data->Indexed_0@;
        let eb = tb.data->Indexed_0@;
        assert forall|i: int, j: int| 0 <= i < j < eb.len() implies crate::text::seq_lt(#[trigger] eb[i].0@, #[trigger] eb[j].0@) by {
            assert(eb[i].0 == ea[i].0);
            assert(eb[j].0 == ea[j].0);
        }
        assert forall|i: int| 0 <= i < eb.len() implies row_fits(#[trigger] eb[i].1, tb.headers@) by {
            if i != p.ri {
                assert(eb[i] == ea[i]);
            } else {
                assert(row_fits(ea[i].1, ta.headers@));
            }
        }
    } else {
        let ra = ta.data->Sequential_0@;
        let rb = tb.data->Sequential_0@;
        assert forall|i: int| 0 <= i < rb.len() implies row_fits(#[trigger] rb[i], tb.headers@) by {
            if i != p.ri {
                assert(rb[i] == ra[i]);
            } else {
                assert(row_fits(ra[i], ta.headers@));
            }
        }
    }
    assert(tb.wf());
    assert forall|i: int| 0 <= i < b.tables@.len() implies (#[trigger] b.tables@[i]).wf() by {
        if i != p.ti {
            assert(b.tables@[i] == a.tables@[i]);
        }
    }
}

/// Whether a planned slot is the primary key field of its table.
pub open spec fn touches_key(root: DslRoot, p: Plan) -> bool {
    p.fi as int == pk_pos(root.tables@[p.ti as int].headers@)
}

/// Position of the primary key header: the first typed with an index
/// discipline.
fn key_header_position(hs: &Vec<HeaderField>) -> (r: Option<usize>)
    ensures
        match r {
            Some(p) => p == pk_pos(hs@),
            None => pk_pos(hs@) == -1,
        },
{
    let mut i: usize = 0;
    while i < hs.len()
        invariant
            i <= hs@.len(),
            pk_pos(hs@.take(i as int)) == -1,
        decreases hs@.len() - i,
    {
        assert(hs@.take(i + 1).drop_last() == hs@.take(i as int));
        let disc = match &hs[i].type_info {
            Some(t) => crate::parser::is_discipline_chars(&chars_of(t.as_str())),
            None => false,
        };
        if disc {
            proof {
                lemma_pk_pos(hs@);
                lemma_pk_pos(hs@.take(i + 1));
                assert forall|j: int| 0 <= j < i implies !crate::structs::header_is_discipline(#[trigger] hs@[j]) by {
                    lemma_pk_pos(hs@.take(i as int));
                    assert(hs@.take(i as int)[j] == hs@[j]);
                }
            }
            return Some(i);
        }
        i = i + 1;
    }
    assert(hs@.take(i as int) == hs@);
    None
}

proof fn lemma_locate_off_key(root: DslRoot, ts: Seq<Seq<char>>)
    requires
        locate(root, ts) is Some,
    ensures
        !touches_key(root, locate(root, ts)->0),
{
    lemma_locate_valid(root, ts);
}

proof fn lemma_replaced_numbered(a: DslRoot, b: DslRoot, p: Plan, v: ValueModel)
    requires
        a.wf(),
        a.numbered(),
        plan_valid(a, p),
        replaced(a, b, p, v),
        !touches_key(a, p),
    ensures
        b.numbered(),
{
    let ta = a.tables@[p.ti as int];
    let tb = b.tables@[p.ti as int];
    assert(ta.wf() && ta.numbered());
    if !p.keyed && ta.kind() == Some(crate::structs::kw_sindex()) {
        let ra0 = ta.data->Sequential_0@;
        let rb0 = tb.data->Sequential_0@;
        let hs = ta.headers@;
        lemma_pk_pos(hs);
        let pp = pk_pos(hs);
        let pk = pk_name(ta);
        assert forall|i: int| 0 <= i < rb0.len() implies (crate::structs::row_get(#[trigger] rb0[i], pk) matches Some(x) && x@ == ValueModel::Int(i)) by {
            if i != p.ri {
                assert(rb0[i] == ra0[i]);
            } else {
                let ra = ra0[i];
                let rb = rb0[i];
                assert(crate::structs::row_fits(ra, hs));
                lemma_key_pos(ra.fields@, pk);
                lemma_key_pos(rb.fields@, pk);
                let ka = key_pos(ra.fields@, pk);
                assert(ra.fields@[pp].0@ == pk);
                if ka != pp {
                    assert(ra.fields@[ka].0@ == hs[ka].name@);
                }
                let kb = key_pos(rb.fields@, pk);
                assert(rb.fields@[pp] == ra.fields@[pp]);
                if kb != pp {
                    if kb != p.fi as int {
                        assert(rb.fields@[kb] == ra.fields@[kb]);
                        assert(ra.fields@[kb].0@ == hs[kb].name@);
                    } else {
                        assert(rb.fields@[kb].0 == ra.fields@[kb].0);
                        assert(ra.fields@[kb].0@ == hs[kb].name@);
                    }
                }
            }
        }
    }
    assert forall|i: int| 0 <= i < b.tables@.len() implies (#[trigger] b.tables@[i]).numbered() by {
        if i != p.ti {
            assert(b.tables@[i] == a.tables@[i]);
        }
    }
}

proof fn lemma_replaced_keys(a: DslRoot, b: DslRoot, p: Plan, v: ValueModel)
    requires
        a.wf(),
        a.keys_consistent(),
        plan_valid(a, p),
        replaced(a, b, p, v),
        !touches_key(a, p),
    ensures
        b.keys_consistent(),
{
    let ta = a.tables@[p.ti as int];
    let tb = b.tables@[p.ti as int];
    assert(ta.wf() && ta.keys_consistent());
    if p.keyed {
        let ea = ta.data->Indexed_0@;
        let eb = tb.data->Indexed_0@;
        let hs = ta.headers@;
        lemma_pk_pos(hs);
        let pp = pk_pos(hs);
        let pk = pk_name(ta);
        assert forall|i: int| 0 <= i < eb.len() implies crate::structs::row_key((#[trigger] eb[i]).1, pk) == Some(eb[i].0@) by {
            if i != p.ri {
                assert(eb[i] == ea[i]);
            } else {
                let ra = ea[i].1;
                let rb = eb[i].1;
                assert(crate::structs::row_fits(ra, hs));
                assert(pp >= 0);
                lemma_key_pos(ra.fields@, pk);
                lemma_key_pos(rb.fields@, pk);
                let ka = key_pos(ra.fields@, pk);
                assert(ra.fields@[pp].0@ == pk);
                if ka != pp {
                    assert(ra.fields@[ka].0@ == hs[ka].name@);
                }
                assert(ka == pp);
                let kb = key_pos(rb.fields@, pk);
                assert(rb.fields@[pp] == ra.fields@[pp]);
                if kb != pp {
                    if kb != p.fi as int {
                        assert(rb.fields@[kb] == ra.fields@[kb]);
                        assert(ra.fields@[kb].0@ == hs[kb].name@);
                    } else {
                        assert(rb.fields@[kb].0 == ra.fields@[kb].0);
                        assert(ra.fields@[kb].0@ == hs[kb].name@);
                    }
                }
                assert(kb == pp);
                assert(eb[i].0 == ea[i].0);
            }
        }
    }
    assert forall|i: int| 0 <= i < b.tables@.len() implies (#[trigger] b.tables@[i]).keys_consistent() by {
        if i != p.ti {
            assert(b.tables@[i] == a.tables@[i]);
        }
    }
}

/// Stores a value at a path `table[i].field`, `table[key].field[n]`, ...
/// The text is read under the column's type hint and coerced to the kind
/// already stored; on any error the root is left unchanged.
pub fn execute_update(root: &mut DslRoot, path_str: &str, value_str: &str) -> (r: Result<(), String>)
    ensures
        match update_effect(*old(root), path_str@, value_str@) {
            Some((p, v)) => r is Ok && replaced(*old(root), *final(root), p, v),
            None => r is Err && *final(root) == *old(root),
        },
        old(root).wf() ==> final(root).wf(),
        old(root).wf() && old(root).keys_consistent() ==> final(root).keys_consistent(),
        old(root).wf() && old(root).numbered() ==> final(root).numbered(),
        final(root).tables@.len() == old(root).tables@.len(),
        forall|j: int| 0 <= j < old(root).tables@.len() ==> (#[trigger] final(root).tables@[j]).name == old(root).tables@[j].name,
{
    let mut full: Vec<char> = vec!['#', '.'];
    crate::text::push_all(&mut full, &chars_of(path_str));
    assert(full@ == update_prefix() + path_str@);
    let toks = match tokenize_query_path(string_of(&full).as_str()) {
        Ok(t) => t,
        Err(e) => {
            return Err(e);
        },
    };
    let ghost ts = tokenize(update_prefix() + path_str@)->0;
    let p = match locate_exec(root, &toks, Ghost(ts)) {
        Ok(p) => p,
        Err(e) => {
            return Err(e);
        },
    };
    let ghost a = *root;
    proof {
        lemma_locate_valid(a, ts);
    }
    let (target, field_name): (&Value, &String) = {
        let t = &root.tables[p.ti];
        let row: &Row = if p.keyed {
            match &t.data {
                TableData::Indexed(es) => &es[p.ri].1,
                _ => vstd::pervasive::unreached(),
            }
        } else {
            match &t.data {
                TableData::Sequential(rows) => &rows[p.ri],
                _ => vstd::pervasive::unreached(),
            }
        };
        let fv = &row.fields[p.fi];
        let tv = match p.ei {
            Some(e) => match &fv.1 {
                Value::Tuple(vs) => &vs[e],
                _ => vstd::pervasive::unreached(),
            },
            None => &fv.1,
        };
        (tv, &fv.0)
    };
    assert(*target == plan_value(a, p));
    let t = &root.tables[p.ti];
    let hint: Option<Vec<char>> = match find_header(&t.headers, &chars_of(field_name.as_str())) {
        Some(hp) => match &t.headers[hp].type_info {
            Some(ty) => Some(chars_of(ty.as_str())),
            None => None,
        },
        None => None,
    };
    assert(vec_opt(hint) == plan_hint(a, p));
    let text = chars_of(value_str);
    let nv = match &hint {
        Some(h) => crate::parser::parse_value_chars(&text, Some(h.as_slice())),
        None => crate::parser::parse_value_chars(&text, None),
    };
    let target_kind = value_type_to_string(target);
    let v = match coerce_exec(target, nv, &hint) {
        Some(v) => v,
        None => {
            let m = message("Type mismatch for path: ", path_str);
            return Err(message(m.as_str(), message("; the field holds a value of kind ", target_kind.as_str()).as_str()));
        },
    };
    let ti = p.ti;
    let ghost vm = v@;
    write_in_table(&mut root.tables[ti], p.keyed, p.ri, p.fi, p.ei, v);
    proof {
        assert(replaced(a, *root, p, vm));
        if a.wf() {
            lemma_replaced_wf(a, *root, p, vm);
            lemma_locate_off_key(a, ts);
            if a.keys_consistent() {
                lemma_replaced_keys(a, *root, p, vm);
            }
            if a.numbered() {
                lemma_replaced_numbered(a, *root, p, vm);
            }
        }
        assert forall|j: int| 0 <= j < a.tables@.len() implies (#[trigger] root.tables@[j]).name == a.tables@[j].name by {
            if j != p.ti {
                assert(root.tables@[j] == a.tables@[j]);
            }
        }
    }
    Ok(())
}

/// A row holding `Null` under every header.
fn null_row(headers: &Vec<HeaderField>) -> (r: Row)
    ensures
        row_fits(r, headers@),
        forall|i: int| 0 <= i < r.fields@.len() ==> (#[trigger] r.fields@[i]).1 == Value::Null,
{
    let mut fields: Vec<(String, Value)> = Vec::new();
    let mut i: usize = 0;
    while i < headers.len()
        invariant
            i <= headers@.len(),
            fields@.len() == i,
            forall|k: int| 0 <= k < i ==> (#[trigger] fields@[k]).0@ == headers@[k].name@ && fields@[k].1 == Value::Null,
        decreases headers@.len() - i,
    {
        fields.push((headers[i].name.clone(), Value::Null));
        i = i + 1;
    }
    Row { fields }
}

proof fn lemma_key_pos_at(es: Seq<(String, Value)>, p: int, k: Seq<char>)
    requires
        0 <= p < es.len(),
        es[p].0@ == k,
        forall|j: int| 0 <= j < es.len() && j != p ==> es[j].0@ != k,
    ensures
        key_pos(es, k) == p,
{
    lemma_key_pos(es, k);
}

/// The value that a row appended by [`execute_add`] holds in column `i`:
/// its position under a `sindex` key, `Null` elsewhere.
pub open spec fn added_value(t: Table, i: int, n: int) -> ValueModel {
    if t.kind() == Some(kw_sindex()) && i == pk_pos(t.headers@) {
        ValueModel::Int(n)
    } else {
        ValueModel::Null
    }
}

/// When `execute_add` succeeds on table `t`.
pub open spec fn add_ok(t: Table) -> bool {
    t.data is Sequential && (t.kind() is None || (t.kind() == Some(kw_sindex()) && t.data->Sequential_0@.len()
        <= i64::MAX))
}

/// The root after adding a row of `Null` fields to the table named `name`.
pub open spec fn add_effect(a: DslRoot, name: Seq<char>, b: DslRoot) -> bool {
    match a.table(name) {
        None => b.tables@ == a.tables@,
        Some(t) => if add_ok(t) {
            &&& b.table(name) matches Some(nt) && nt.name == t.name && nt.headers == t.headers && nt.data is Sequential
                && ({
                let rows = t.data->Sequential_0@;
                let nrows = nt.data->Sequential_0@;
                &&& nrows.len() == rows.len() + 1
                &&& nrows.drop_last() == rows
                &&& row_fits(nrows.last(), t.headers@)
                &&& forall|i: int|
                    0 <= i < t.headers@.len() ==> (#[trigger] nrows.last().fields@[i]).1@ == added_value(t, i, rows.len() as int)
            })
            &&& b.tables@.len() == a.tables@.len()
            &&& forall|j: int| 0 <= j < a.tables@.len() && j != table_pos(a.tables@, name) ==> b.tables@[j] == a.tables@[j]
        } else {
            b.tables@ == a.tables@
        },
    }
}

/// Appends a row of `Null` fields to a table. A `sindex` table numbers it
/// by position; a table without a key appends it as is; `index` and
/// `gindex` tables refuse it, since `Null` is no key.
pub fn execute_add(root: &mut DslRoot, table_name_str: &str) -> (r: Result<(), String>)
    requires
        old(root).wf(),
    ensures
        final(root).wf(),
        old(root).keys_consistent() ==> final(root).keys_consistent(),
        old(root).numbered() ==> final(root).numbered(),
        add_effect(*old(root), table_name_str@, *final(root)),
        r is Ok <==> (old(root).table(table_name_str@) matches Some(t) && add_ok(t)),
        r is Err ==> final(root).tables@ == old(root).tables@,
        final(root).tables@.len() == old(root).tables@.len(),
        forall|j: int| 0 <= j < old(root).tables@.len() ==> (#[trigger] final(root).tables@[j]).name == old(root).tables@[j].name,
        match old(root).table(table_name_str@) {
            None => r is Err,
            Some(t) => {
                &&& r is Ok <==> t.data is Sequential && (t.kind() is None || (t.kind() == Some(kw_sindex())
                    && t.data->Sequential_0@.len() <= i64::MAX))
                &&& r is Ok ==> (final(root).table(table_name_str@) matches Some(nt) && nt.name == t.name
                    && nt.headers == t.headers && nt.data is Sequential && ({
                    let rows = t.data->Sequential_0@;
                    let nrows = nt.data->Sequential_0@;
                    &&& nrows.len() == rows.len() + 1
                    &&& nrows.drop_last() == rows
                    &&& row_fits(nrows.last(), t.headers@)
                    &&& forall|i: int|
                        0 <= i < t.headers@.len() ==> (#[trigger] nrows.last().fields@[i]).1@ == added_value(
                            t,
                            i,
                            rows.len() as int,
                        )
                }))
                &&& old(root).tables@.len() == final(root).tables@.len()
                &&& forall|j: int| 0 <= j < old(root).tables@.len() && j != table_pos(old(root).tables@, table_name_str@)
                    ==> final(root).tables@[j] == old(root).tables@[j]
            },
        },
{
    let p = match root.position(table_name_str) {
        Some(p) => p,
        None => {
            return Err(message("Table not found for add operation: ", table_name_str));
        },
    };
    let ghost r0 = *root;
    let ghost t0 = root.tables@[p as int];
    let new_row = null_row(&root.tables[p].headers);
    let ghost nr = new_row;
    proof {
        lemma_table_pos(r0.tables@, table_name_str@);
        lemma_pk_pos(t0.headers@);
        let pp = pk_pos(t0.headers@);
        if pp >= 0 {
            assert forall|j: int| 0 <= j < nr.fields@.len() && j != pp implies nr.fields@[j].0@ != pk_name(t0) by {
                assert(nr.fields@[j].0@ == t0.headers@[j].name@);
            }
            lemma_key_pos_at(nr.fields@, pp, pk_name(t0));
            assert(row_get(nr, pk_name(t0)) == Some(Value::Null));
        }
    }
    let r = root.tables[p].add_row(new_row);
    proof {
        let t1 = root.tables@[p as int];
        assert forall|a: int, b: int| 0 <= a < b < root.tables@.len() implies (#[trigger] root.tables@[a]).name@ != (#[trigger] root.tables@[b]).name@ by {
            assert(root.tables@[a].name == r0.tables@[a].name);
            assert(root.tables@[b].name == r0.tables@[b].name);
        }
        assert forall|j: int| #![auto] 0 <= j < root.tables@.len() && j != p implies root.tables@[j] == r0.tables@[j] by {}
        assert forall|j: int| 0 <= j < r0.tables@.len() implies (#[trigger] root.tables@[j]).name == r0.tables@[j].name by {
            if j != p {
                assert(root.tables@[j] == r0.tables@[j]);
            }
        }
        lemma_table_pos_same(root.tables@, r0.tables@, table_name_str@);
        if r is Err {
            assert(root.tables@ =~= r0.tables@);
        }
        if r is Ok {
            let rows = t0.data->Sequential_0@;
            let nrows = t1.data->Sequential_0@;
            let pp = pk_pos(t0.headers@);
            if t0.kind() == Some(kw_sindex()) {
                assert forall|i: int| 0 <= i < t0.headers@.len() implies (#[trigger] nrows.last().fields@[i]).1@ == added_value(t0, i, rows.len() as int) by {
                    assert(nrows.last().fields@ == numbered(nr, pk_name(t0), rows.len() as int));
                }
            }
        }
    }
    proof {
        let t0x = r0.table(table_name_str@)->0;
        assert(t0x == t0);
        assert((r is Ok) == add_ok(t0));
        if r is Ok {
            assert(root.table(table_name_str@) matches Some(nt) && nt.name == t0.name && nt.headers == t0.headers);
            assert(root.tables@.len() == r0.tables@.len());
            let nt = root.table(table_name_str@)->0;
            let rows = t0.data->Sequential_0@;
            let nrows = nt.data->Sequential_0@;
            assert(nrows.len() == rows.len() + 1);
            assert(nrows.drop_last() == rows);
            assert(row_fits(nrows.last(), t0.headers@));
            assert(forall|i: int| 0 <= i < t0.headers@.len() ==> (#[trigger] nrows.last().fields@[i]).1@ == added_value(t0, i, rows.len() as int));
            assert(forall|j: int| 0 <= j < r0.tables@.len() && j != table_pos(r0.tables@, table_name_str@) ==> root.tables@[j] == r0.tables@[j]);
        } else {
            assert(root.tables@ == r0.tables@);
        }
    }
    r
}

proof fn lemma_table_pos_same(ts: Seq<Table>, us: Seq<Table>, k: Seq<char>)
    requires
        ts.len() == us.len(),
        forall|j: int| 0 <= j < ts.len() ==> (#[trigger] ts[j]).name == us[j].name,
    ensures
        table_pos(ts, k) == table_pos(us, k),
{
    crate::structs::lemma_table_pos_names(ts, us, k);
}

/// The pieces of `ps` joined by `sep`.
pub open spec fn join_sep(ps: Seq<Seq<char>>, sep: char) -> Seq<char>
    decreases ps.len(),
{
    if ps.len() == 0 {
        Seq::empty()
    } else if ps.len() == 1 {
        ps[0]
    } else {
        join_sep(ps.drop_last(), sep) + seq![sep] + ps.last()
    }
}

pub open spec fn is_special_char(c: char) -> bool {
    c == ',' || c == '(' || c == ')' || c == '\''
}

/// Text is written in single quotes when empty, holding `,`, `(`, `)` or
/// `'`, or starting or ending with whitespace.
pub open spec fn needs_quotes(s: Seq<char>) -> bool {
    s.len() == 0 || (exists|i: int| 0 <= i < s.len() && is_special_char(#[trigger] s[i])) || is_ws(s[0])
        || is_ws(s.last())
}

/// `s` with each `'` doubled.
pub open spec fn double_quotes(s: Seq<char>) -> Seq<char>
    decreases s.len(),
{
    if s.len() == 0 {
        s
    } else {
        double_quotes(s.drop_last()) + if s.last() == '\'' {
            seq!['\'', '\'']
        } else {
            seq![s.last()]
        }
    }
}

/// The canonical text of a value.
pub open spec fn ser(v: ValueModel) -> Seq<char>
    decreases v,
{
    match v {
        ValueModel::Null => Seq::empty(),
        ValueModel::Int(i) => crate::text::int_dec(i),
        ValueModel::Str(s) => if needs_quotes(s) {
            seq!['\''] + double_quotes(s) + seq!['\'']
        } else {
            s
        },
        ValueModel::Tuple(vs) => seq!['('] + join_sep(sers(vs), ',') + seq![')'],
        ValueModel::Ref(_, k) => seq!['('] + ser(*k) + seq![')'],
    }
}

pub open spec fn sers(vs: Seq<ValueModel>) -> Seq<Seq<char>>
    decreases vs,
{
    if vs.len() == 0 {
        Seq::empty()
    } else {
        sers(vs.drop_last()).push(ser(vs.last()))
    }
}

fn push_quoted(s: &[char], out: &mut Vec<char>)
    ensures
        final(out)@ == old(out)@ + double_quotes(s@),
{
    let mut i: usize = 0;
    while i < s.len()
        invariant
            i <= s@.len(),
            out@ == old(out)@ + double_quotes(s@.take(i as int)),
        decreases s@.len() - i,
    {
        assert(s@.take(i + 1).drop_last() == s@.take(i as int));
        if s[i] == '\'' {
            out.push('\'');
            out.push('\'');
        } else {
            out.push(s[i]);
        }
        i = i + 1;
    }
    assert(s@.take(s@.len() as int) == s@);
}

fn has_special(s: &[char]) -> (r: bool)
    ensures
        r == needs_quotes(s@),
{
    if s.len() == 0 {
        return true;
    }
    let mut i: usize = 0;
    while i < s.len()
        invariant
            i <= s@.len(),
            forall|j: int| 0 <= j < i ==> !is_special_char(#[trigger] s@[j]),
        decreases s@.len() - i,
    {
        let c = s[i];
        if c == ',' || c == '(' || c == ')' || c == '\'' {
            return true;
        }
        i = i + 1;
    }
    is_ws_char(s[0]) || is_ws_char(s[s.len() - 1])
}

/// Appends the canonical text of `value` to `out`.
fn push_serialized(value: &Value, out: &mut Vec<char>)
    ensures
        final(out)@ == old(out)@ + ser(value@),
    decreases value,
{
    match value {
        Value::Null => {
            assert(ser(value@) == Seq::<char>::empty());
            assert(out@ == out@ + Seq::<char>::empty());
        },
        Value::Integer(i) => {
            crate::text::push_int(*i, out);
        },
        Value::String(s) => {
            let c = chars_of(s.as_str());
            if has_special(&c) {
                out.push('\'');
                push_quoted(&c, out);
                out.push('\'');
            } else {
                crate::text::push_all(out, &c);
            }
        },
        Value::Tuple(vs) => {
            out.push('(');
            let ghost start = out@;
            let mut i: usize = 0;
            while i < vs.len()
                invariant
                    *value == Value::Tuple(*vs),
                    i <= vs@.len(),
                    sers(views_of(vs@.take(i as int))).len() == i,
                    out@ == start + join_sep(sers(views_of(vs@.take(i as int))), ','),
                decreases vs@.len() - i,
            {
                proof {
                    assert(vs@.take(i + 1).drop_last() == vs@.take(i as int));
                    let ms = views_of(vs@.take(i as int));
                    assert(ms.push(model_of(vs@[i as int])).drop_last() == ms);
                }
                let ghost ks = sers(views_of(vs@.take(i as int)));
                if i > 0 {
                    out.push(',');
                }
                assert(decreases_to!(*value => (*value)->Tuple_0));
                assert(decreases_to!(*vs => vs@));
                assert(decreases_to!(vs@ => vs@[i as int]));
                push_serialized(&vs[i], out);
                proof {
                    let k = ser(vs@[i as int]@);
                    assert(ks.push(k).drop_last() == ks);
                    if i == 0 {
                        assert(ks.push(k)[0] == k);
                    }
                }
                i = i + 1;
            }
            assert(vs@.take(vs@.len() as int) == vs@);
            out.push(')');
        },
        Value::Reference { table: _, key } => {
            out.push('(');
            push_serialized(key, out);
            out.push(')');
        },
    }
}

/// The canonical text of a value: `Null` as nothing, integers in decimal,
/// text bare or in single quotes, tuples and references in parentheses.
pub fn serialize_value(value: &Value) -> (r: String)
    ensures
        r@ == ser(value@),
{
    let mut out: Vec<char> = Vec::new();
    push_serialized(value, &mut out);
    assert(out@ == Seq::<char>::empty() + ser(value@));
    string_of(&out)
}

pub open spec fn kind_name(v: ValueModel) -> Seq<char> {
    match v {
        ValueModel::Str(_) => seq!['S', 't', 'r', 'i', 'n', 'g'],
        ValueModel::Int(_) => seq!['I', 'n', 't', 'e', 'g', 'e', 'r'],
        ValueModel::Tuple(_) => seq!['T', 'u', 'p', 'l', 'e'],
        ValueModel::Ref(_, _) => seq!['R', 'e', 'f', 'e', 'r', 'e', 'n', 'c', 'e'],
        ValueModel::Null => seq!['N', 'u', 'l', 'l'],
    }
}

/// The name of a value's kind.
pub fn value_type_to_string(value: &Value) -> (r: String)
    ensures
        r@ == kind_name(value@),
{
    let v: Vec<char> = match value {
        Value::String(_) => vec!['S', 't', 'r', 'i', 'n', 'g'],
        Value::Integer(_) => vec!['I', 'n', 't', 'e', 'g', 'e', 'r'],
        Value::Tuple(_) => vec!['T', 'u', 'p', 'l', 'e'],
        Value::Reference { .. } => vec!['R', 'e', 'f', 'e', 'r', 'e', 'n', 'c', 'e'],
        Value::Null => vec!['N', 'u', 'l', 'l'],
    };
    string_of(&v)
}

/// A header as the header line writes it.
pub open spec fn header_text(h: HeaderField) -> Seq<char> {
    match h.type_info {
        None => h.name@,
        Some(t) => if h.is_primary_key && is_discipline(t@) {
            h.name@ + seq![':'] + t@
        } else {
            h.name@ + seq![':', ':'] + t@
        },
    }
}

pub open spec fn header_texts_of(hs: Seq<HeaderField>) -> Seq<Seq<char>>
    decreases hs.len(),
{
    if hs.len() == 0 {
        Seq::empty()
    } else {
        header_texts_of(hs.drop_last()).push(header_text(hs.last()))
    }
}

pub open spec fn header_line_text(hs: Seq<HeaderField>) -> Seq<char> {
    if hs.len() == 0 {
        seq!['/', '/']
    } else {
        seq!['/'] + join_sep(header_texts_of(hs), '/') + seq!['/']
    }
}

/// A row's field under header `h`, as written.
pub open spec fn cell(r: Row, h: HeaderField) -> Seq<char> {
    match row_get(r, h.name@) {
        Some(v) => ser(v@),
        None => Seq::empty(),
    }
}

pub open spec fn cells(r: Row, hs: Seq<HeaderField>) -> Seq<Seq<char>>
    decreases hs.len(),
{
    if hs.len() == 0 {
        Seq::empty()
    } else {
        cells(r, hs.drop_last()).push(cell(r, hs.last()))
    }
}

/// The data line of a row: its fields in header order, comma-joined.
pub open spec fn row_line(r: Row, hs: Seq<HeaderField>) -> Seq<char> {
    join_sep(cells(r, hs), ',')
}

pub open spec fn rows_text(rs: Seq<Row>, hs: Seq<HeaderField>) -> Seq<char>
    decreases rs.len(),
{
    if rs.len() == 0 {
        Seq::empty()
    } else {
        rows_text(rs.drop_last(), hs) + row_line(rs.last(), hs) + seq!['\n']
    }
}

pub open spec fn entry_rows(es: Seq<(String, Row)>) -> Seq<Row>
    decreases es.len(),
{
    if es.len() == 0 {
        Seq::empty()
    } else {
        entry_rows(es.drop_last()).push(es.last().1)
    }
}

pub open spec fn group_rows(gs: Seq<(String, Vec<Row>)>) -> Seq<Row>
    decreases gs.len(),
{
    if gs.len() == 0 {
        Seq::empty()
    } else {
        group_rows(gs.drop_last()) + gs.last().1@
    }
}

/// The rows of a table in the order pack writes them: sequential data in
/// order, keyed data by ascending key (the order the entries are kept in).
pub open spec fn pack_rows(t: Table) -> Option<Seq<Row>> {
    match t.data {
        TableData::Sequential(rows) => Some(rows@),
        TableData::Indexed(es) => Some(entry_rows(es@)),
        TableData::GroupedIndexed(gs) => Some(group_rows(gs@)),
        TableData::RawLines(_) => None,
    }
}

pub open spec fn rstrip_nl(s: Seq<char>) -> Seq<char>
    decreases s.len(),
{
    if s.len() > 0 && s.last() == '\n' {
        rstrip_nl(s.drop_last())
    } else {
        s
    }
}

/// The canonical text of one table.
pub open spec fn table_text(t: Table) -> Option<Seq<char>> {
    match pack_rows(t) {
        Some(rs) => Some(
            rstrip_nl(
                t.name@ + seq![':', '\n'] + header_line_text(t.headers@) + seq!['\n'] + rows_text(rs, t.headers@),
            ),
        ),
        None => None,
    }
}

pub open spec fn pack_texts(root: DslRoot, names: Seq<String>) -> Option<Seq<Seq<char>>>
    decreases names.len(),
{
    if names.len() == 0 {
        Some(Seq::empty())
    } else {
        match (pack_texts(root, names.drop_last()), root.table(names.last()@)) {
            (Some(ts), Some(t)) => match table_text(t) {
                Some(x) => Some(ts.push(x)),
                None => None,
            },
            _ => None,
        }
    }
}

pub open spec fn join_tables(ts: Seq<Seq<char>>) -> Seq<char>
    decreases ts.len(),
{
    if ts.len() == 0 {
        Seq::empty()
    } else if ts.len() == 1 {
        ts[0]
    } else {
        join_tables(ts.drop_last()) + seq!['\n', '~', '\n'] + ts.last()
    }
}

/// The canonical text of the listed tables, or `None` when one is missing
/// or not yet parsed.
pub open spec fn pack(root: DslRoot, names: Seq<String>) -> Option<Seq<char>> {
    match pack_texts(root, names) {
        Some(ts) => Some(join_tables(ts)),
        None => None,
    }
}

fn push_row_line(r: &Row, hs: &Vec<HeaderField>, out: &mut Vec<char>)
    ensures
        final(out)@ == old(out)@ + row_line(*r, hs@),
{
    let mut i: usize = 0;
    while i < hs.len()
        invariant
            i <= hs@.len(),
            out@ == old(out)@ + join_sep(cells(*r, hs@.take(i as int)), ','),
            cells(*r, hs@.take(i as int)).len() == i,
        decreases hs@.len() - i,
    {
        proof {
            assert(hs@.take(i + 1).drop_last() == hs@.take(i as int));
        }
        let ghost cs = cells(*r, hs@.take(i as int));
        if i > 0 {
            out.push(',');
        }
        match find_key(&r.fields, hs[i].name.as_str()) {
            Some(p) => {
                push_serialized(&r.fields[p].1, out);
            },
            None => {
                assert(out@ == out@ + Seq::<char>::empty());
            },
        }
        proof {
            let c = cell(*r, hs@[i as int]);
            assert(cs.push(c).drop_last() == cs);
            if i == 0 {
                assert(cs.push(c)[0] == c);
            }
        }
        i = i + 1;
    }
    assert(hs@.take(hs@.len() as int) == hs@);
}

fn push_rows(rs: &Vec<Row>, hs: &Vec<HeaderField>, out: &mut Vec<char>)
    ensures
        final(out)@ == old(out)@ + rows_text(rs@, hs@),
{
    let mut i: usize = 0;
    while i < rs.len()
        invariant
            i <= rs@.len(),
            out@ == old(out)@ + rows_text(rs@.take(i as int), hs@),
        decreases rs@.len() - i,
    {
        assert(rs@.take(i + 1).drop_last() == rs@.take(i as int));
        push_row_line(&rs[i], hs, out);
        out.push('\n');
        i = i + 1;
    }
    assert(rs@.take(rs@.len() as int) == rs@);
}

proof fn lemma_rows_text_concat(a: Seq<Row>, b: Seq<Row>, hs: Seq<HeaderField>)
    ensures
        rows_text(a + b, hs) == rows_text(a, hs) + rows_text(b, hs),
    decreases b.len(),
{
    if b.len() == 0 {
        assert(a + b == a);
    } else {
        assert((a + b).drop_last() == a + b.drop_last());
        lemma_rows_text_concat(a, b.drop_last(), hs);
    }
}

/// Appends the header line and data lines of a table.
fn push_table(t: &Table, out: &mut Vec<char>) -> (ok: bool)
    ensures
        ok == (pack_rows(*t) is Some),
        ok ==> final(out)@ == old(out)@ + header_line_text(t.headers@) + seq!['\n'] + rows_text(pack_rows(*t)->0, t.headers@),
{
    if let TableData::RawLines(_) = &t.data {
        return false;
    }
    let hs = &t.headers;
    let ghost o = out@;
    if hs.len() == 0 {
        out.push('/');
        out.push('/');
    } else {
        out.push('/');
        let ghost start = out@;
        let mut i: usize = 0;
        while i < hs.len()
            invariant
                i <= hs@.len(),
                out@ == start + join_sep(header_texts_of(hs@.take(i as int)), '/'),
                header_texts_of(hs@.take(i as int)).len() == i,
            decreases hs@.len() - i,
        {
            proof {
                assert(hs@.take(i + 1).drop_last() == hs@.take(i as int));
            }
            let ghost ps = header_texts_of(hs@.take(i as int));
            if i > 0 {
                out.push('/');
            }
            let h = &hs[i];
            crate::text::push_all(out, &chars_of(h.name.as_str()));
            match &h.type_info {
                Some(ty) => {
                    let tc = chars_of(ty.as_str());
                    let disc = chars_eq(&tc, &crate::structs::kw_sindex_chars()) || chars_eq(&tc, &crate::structs::kw_index_chars())
                        || chars_eq(&tc, &crate::structs::kw_gindex_chars());
                    if h.is_primary_key && disc {
                        out.push(':');
                    } else {
                        out.push(':');
                        out.push(':');
                    }
                    crate::text::push_all(out, &tc);
                },
                None => {},
            }
            proof {
                let x = header_text(hs@[i as int]);
                assert(ps.push(x).drop_last() == ps);
                if i == 0 {
                    assert(ps.push(x)[0] == x);
                }
            }
            i = i + 1;
        }
        assert(hs@.take(hs@.len() as int) == hs@);
        out.push('/');
    }
    assert(out@ == o + header_line_text(t.headers@));
    out.push('\n');
    let ghost base = out@;
    match &t.data {
        TableData::Sequential(rows) => {
            push_rows(rows, hs, out);
        },
        TableData::Indexed(es) => {
            let mut i: usize = 0;
            while i < es.len()
                invariant
                    i <= es@.len(),
                    out@ == base + rows_text(entry_rows(es@.take(i as int)), hs@),
                decreases es@.len() - i,
            {
                assert(es@.take(i + 1).drop_last() == es@.take(i as int));
                assert(entry_rows(es@.take(i + 1)).drop_last() == entry_rows(es@.take(i as int)));
                push_row_line(&es[i].1, hs, out);
                out.push('\n');
                i = i + 1;
            }
            assert(es@.take(es@.len() as int) == es@);
        },
        TableData::GroupedIndexed(gs) => {
            let mut i: usize = 0;
            while i < gs.len()
                invariant
                    i <= gs@.len(),
                    out@ == base + rows_text(group_rows(gs@.take(i as int)), hs@),
                decreases gs@.len() - i,
            {
                assert(gs@.take(i + 1).drop_last() == gs@.take(i as int));
                proof {
                    lemma_rows_text_concat(group_rows(gs@.take(i as int)), gs@[i as int].1@, hs@);
                }
                push_rows(&gs[i].1, hs, out);
                i = i + 1;
            }
            assert(gs@.take(gs@.len() as int) == gs@);
        },
        TableData::RawLines(_) => {},
    }
    true
}

fn strip_newlines(out: &mut Vec<char>)
    ensures
        final(out)@ == rstrip_nl(old(out)@),
{
    while out.len() > 0 && out[out.len() - 1] == '\n'
        invariant
            rstrip_nl(out@) == rstrip_nl(old(out)@),
        decreases out@.len(),
    {
        let ghost o = out@;
        out.pop();
        assert(out@ == o.drop_last());
    }
}

/// Writes the listed tables in canonical form, separated by `~` lines.
pub fn execute_pack(root: &DslRoot, table_names: &[String]) -> (r: Result<String, String>)
    ensures
        match pack(*root, table_names@) {
            Some(text) => r matches Ok(s) && s@ == text,
            None => r is Err,
        },
{
    let mut out: Vec<char> = Vec::new();
    let mut i: usize = 0;
    while i < table_names.len()
        invariant
            i <= table_names@.len(),
            pack_texts(*root, table_names@.take(i as int)) is Some,
            out@ == join_tables(pack_texts(*root, table_names@.take(i as int))->0),
            pack_texts(*root, table_names@.take(i as int))->0.len() == i,
        decreases table_names@.len() - i,
    {
        assert(table_names@.take(i + 1).drop_last() == table_names@.take(i as int));
        let ghost ts = pack_texts(*root, table_names@.take(i as int))->0;
        let t = match root.get(table_names[i].as_str()) {
            Some(t) => t,
            None => {
                proof {
                    lemma_pack_none(*root, table_names@, i + 1);
                }
                return Err(message("Table not found for packing: ", table_names[i].as_str()));
            },
        };
        let mut text: Vec<char> = chars_of(t.name.as_str());
        text.push(':');
        text.push('\n');
        assert(text@ =~= t.name@ + seq![':', '\n']);
        let ghost pre = text@;
        if !push_table(t, &mut text) {
            proof {
                lemma_pack_none(*root, table_names@, i + 1);
            }
            return Err(message("Cannot pack a table whose data is not parsed: ", t.name.as_str()));
        }
        assert(text@ =~= t.name@ + seq![':', '\n'] + header_line_text(t.headers@) + seq!['\n'] + rows_text(pack_rows(*t)->0, t.headers@));
        strip_newlines(&mut text);
        assert(text@ == table_text(*t)->0);
        if i > 0 {
            out.push('\n');
            out.push('~');
            out.push('\n');
        }
        crate::text::push_all(&mut out, &text);
        proof {
            let x = table_text(*t)->0;
            assert(ts.push(x).drop_last() == ts);
            if i == 0 {
                assert(ts.push(x)[0] == x);
                assert(out@ == Seq::<char>::empty() + x);
            }
        }
        i = i + 1;
    }
    assert(table_names@.take(table_names@.len() as int) == table_names@);
    Ok(string_of(&out))
}

proof fn lemma_pack_none(root: DslRoot, names: Seq<String>, k: int)
    requires
        0 <= k <= names.len(),
        pack_texts(root, names.take(k)) is None,
    ensures
        pack_texts(root, names) is None,
    decreases names.len(),
{
    if k == names.len() {
        assert(names.take(k) == names);
    } else {
        assert(names.drop_last().take(k) == names.take(k));
        lemma_pack_none(root, names.drop_last(), k);
    }
}

} // verus!
