//! The value model, table schema and the data shapes a table can hold.
use vstd::prelude::*;
use crate::text::{message, seq_lt, chars_of, chars_eq, chars_cmp, lemma_lt_transitive, lemma_lt_irreflexive};

verus! {

/// A field value.
#[derive(Debug, PartialEq)]
pub enum Value {
    String(String),
    Integer(i64),
    Tuple(Vec<Value>),
    Reference { table: String, key: Box<Value> },
    Null,
}

/// The mathematical counterpart of a [`Value`].
pub enum ValueModel {
    Str(Seq<char>),
    Int(int),
    Tuple(Seq<ValueModel>),
    Ref(Seq<char>, Box<ValueModel>),
    Null,
}

impl View for Value {
    type V = ValueModel;

    open spec fn view(&self) -> ValueModel {
        model_of(*self)
    }
}

/// The model of a value.
pub open spec fn model_of(v: Value) -> ValueModel
    decreases v,
{
    match v {
        Value::String(s) => ValueModel::Str(s@),
        Value::Integer(i) => ValueModel::Int(i as int),
        Value::Tuple(vs) => ValueModel::Tuple(views_of(vs@)),
        Value::Reference { table, key } => ValueModel::Ref(table@, Box::new(model_of(*key))),
        Value::Null => ValueModel::Null,
    }
}

/// The models of a sequence of values, element by element.
pub open spec fn views_of(vs: Seq<Value>) -> Seq<ValueModel>
    decreases vs,
{
    if vs.len() == 0 {
        Seq::empty()
    } else {
        views_of(vs.drop_last()).push(model_of(vs.last()))
    }
}

/// One column of a table's schema.
#[derive(Debug, PartialEq)]
pub struct HeaderField {
    pub name: String,
    pub type_info: Option<String>,
    pub is_primary_key: bool,
}

/// One record: a value per header, in header order.
#[derive(Debug, PartialEq)]
pub struct Row {
    pub fields: Vec<(String, Value)>,
}

/// The rows of a table, in the shape its primary key calls for. The two
/// keyed shapes hold their entries in strictly ascending key order.
#[derive(Debug, PartialEq)]
pub enum TableData {
    Sequential(Vec<Row>),
    Indexed(Vec<(String, Row)>),
    GroupedIndexed(Vec<(String, Vec<Row>)>),
    RawLines(Vec<String>),
}

/// A named table: its schema and its data.
#[derive(Debug, PartialEq)]
pub struct Table {
    pub name: String,
    pub headers: Vec<HeaderField>,
    pub header_map: Vec<(String, usize)>,
    pub data: TableData,
    pub primary_key_field_name: Option<String>,
}

pub open spec fn opt_view(o: Option<String>) -> Option<Seq<char>> {
    match o {
        Some(s) => Some(s@),
        None => None,
    }
}

/// Position of the first entry whose key is `k`, or `-1`.
pub open spec fn key_pos<V>(es: Seq<(String, V)>, k: Seq<char>) -> int
    decreases es.len(),
{
    if es.len() == 0 {
        -1
    } else {
        let p = key_pos(es.drop_last(), k);
        if p >= 0 {
            p
        } else if es.last().0@ == k {
            es.len() - 1
        } else {
            -1
        }
    }
}

pub proof fn lemma_key_pos<V>(es: Seq<(String, V)>, k: Seq<char>)
    ensures
        -1 <= key_pos(es, k) < es.len(),
        key_pos(es, k) >= 0 ==> es[key_pos(es, k)].0@ == k,
        forall|j: int| 0 <= j < es.len() && (key_pos(es, k) < 0 || j < key_pos(es, k)) ==> es[j].0@ != k,
    decreases es.len(),
{
    if es.len() > 0 {
        lemma_key_pos(es.drop_last(), k);
        assert forall|j: int| 0 <= j < es.len() - 1 implies es[j] == es.drop_last()[j] by {}
    }
}

pub proof fn lemma_key_pos_update<V>(es: Seq<(String, V)>, p: int, e: (String, V), k: Seq<char>)
    requires
        0 <= p < es.len(),
        e.0@ == es[p].0@,
    ensures
        key_pos(es.update(p, e), k) == key_pos(es, k),
    decreases es.len(),
{
    if p < es.len() - 1 {
        assert(es.update(p, e).drop_last() == es.drop_last().update(p, e));
        lemma_key_pos_update(es.drop_last(), p, e, k);
    } else {
        assert(es.update(p, e).drop_last() == es.drop_last());
    }
}

/// Finds the first entry whose key is `k`.
pub fn find_key<V>(es: &Vec<(String, V)>, k: &str) -> (r: Option<usize>)
    ensures
        match r {
            Some(p) => p == key_pos(es@, k@) && p < es@.len(),
            None => key_pos(es@, k@) == -1,
        },
{
    let kc = chars_of(k);
    let mut i: usize = 0;
    while i < es.len()
        invariant
            i <= es@.len(),
            kc@ == k@,
            key_pos(es@.take(i as int), k@) == -1,
        decreases es@.len() - i,
    {
        assert(es@.take(i + 1).drop_last() == es@.take(i as int));
        let ec = chars_of(es[i].0.as_str());
        if chars_eq(&ec, &kc) {
            proof {
                lemma_key_pos(es@, k@);
                lemma_key_pos(es@.take(i + 1), k@);
                assert forall|j: int| 0 <= j < i implies es@[j].0@ != k@ by {
                    lemma_key_pos(es@.take(i as int), k@);
                    assert(es@.take(i as int)[j] == es@[j]);
                }
            }
            return Some(i);
        }
        i = i + 1;
    }
    assert(es@.take(i as int) == es@);
    None
}

/// Some entry has key `k`.
pub open spec fn has_key<V>(es: Seq<(String, V)>, k: Seq<char>) -> bool {
    exists|i: int| 0 <= i < es.len() && (#[trigger] es[i]).0@ == k
}

pub proof fn lemma_has_key<V>(es: Seq<(String, V)>, k: Seq<char>)
    ensures
        has_key(es, k) <==> key_pos(es, k) >= 0,
{
    lemma_key_pos(es, k);
    if key_pos(es, k) >= 0 {
        assert(es[key_pos(es, k)].0@ == k);
    }
}

/// Keys in strictly ascending order, hence unique.
pub open spec fn keys_sorted<V>(es: Seq<(String, V)>) -> bool {
    forall|i: int, j: int| 0 <= i < j < es.len() ==> seq_lt(#[trigger] es[i].0@, #[trigger] es[j].0@)
}

pub open spec fn kw_sindex() -> Seq<char> {
    seq!['s', 'i', 'n', 'd', 'e', 'x']
}

pub open spec fn kw_index() -> Seq<char> {
    seq!['i', 'n', 'd', 'e', 'x']
}

pub open spec fn kw_gindex() -> Seq<char> {
    seq!['g', 'i', 'n', 'd', 'e', 'x']
}

/// An index discipline tag: `sindex`, `index` or `gindex`.
pub open spec fn is_discipline(t: Seq<char>) -> bool {
    t == kw_sindex() || t == kw_index() || t == kw_gindex()
}

pub open spec fn header_is_discipline(h: HeaderField) -> bool {
    match h.type_info {
        Some(t) => is_discipline(t@),
        None => false,
    }
}

/// Position of the first header whose type is an index discipline, or `-1`.
pub open spec fn pk_pos(hs: Seq<HeaderField>) -> int
    decreases hs.len(),
{
    if hs.len() == 0 {
        -1
    } else {
        let p = pk_pos(hs.drop_last());
        if p >= 0 {
            p
        } else if header_is_discipline(hs.last()) {
            hs.len() - 1
        } else {
            -1
        }
    }
}

pub proof fn lemma_pk_pos(hs: Seq<HeaderField>)
    ensures
        -1 <= pk_pos(hs) < hs.len(),
        pk_pos(hs) >= 0 ==> header_is_discipline(hs[pk_pos(hs)]),
        forall|j: int|
            0 <= j < hs.len() && (pk_pos(hs) < 0 || j < pk_pos(hs)) ==> !header_is_discipline(
                #[trigger] hs[j],
            ),
    decreases hs.len(),
{
    if hs.len() > 0 {
        lemma_pk_pos(hs.drop_last());
        assert forall|j: int| 0 <= j < hs.len() - 1 implies hs[j] == hs.drop_last()[j] by {}
    }
}

/// The type of the primary key header, if there is one.
pub open spec fn index_kind(hs: Seq<HeaderField>) -> Option<Seq<char>> {
    let p = pk_pos(hs);
    if p >= 0 {
        opt_view(hs[p].type_info)
    } else {
        None
    }
}

/// The field value that a row holds under `name`.
pub open spec fn row_get(r: Row, name: Seq<char>) -> Option<Value> {
    let p = key_pos(r.fields@, name);
    if p >= 0 {
        Some(r.fields@[p].1)
    } else {
        None
    }
}

/// A row holds one entry per header, in header order.
pub open spec fn row_fits(r: Row, hs: Seq<HeaderField>) -> bool {
    r.fields@.len() == hs.len() && forall|i: int|
        0 <= i < hs.len() ==> (#[trigger] r.fields@[i]).0@ == hs[i].name@
}

pub open spec fn rows_fit(rs: Seq<Row>, hs: Seq<HeaderField>) -> bool {
    forall|i: int| 0 <= i < rs.len() ==> row_fits(#[trigger] rs[i], hs)
}

pub open spec fn join_keys(ks: Seq<Seq<char>>) -> Seq<char>
    decreases ks.len(),
{
    if ks.len() == 0 {
        Seq::empty()
    } else if ks.len() == 1 {
        ks[0]
    } else {
        join_keys(ks.drop_last()) + seq![','] + ks.last()
    }
}

/// The canonical key string of a value: text as is, integers in decimal,
/// tuples as `(k1,k2,...)`; references and `Null` have none.
pub open spec fn canonical_key(v: ValueModel) -> Option<Seq<char>>
    decreases v,
{
    match v {
        ValueModel::Str(s) => Some(s),
        ValueModel::Int(i) => Some(crate::text::int_dec(i)),
        ValueModel::Tuple(vs) => match canonical_keys(vs) {
            Some(ks) => Some(seq!['('] + join_keys(ks) + seq![')']),
            None => None,
        },
        _ => None,
    }
}

pub open spec fn canonical_keys(vs: Seq<ValueModel>) -> Option<Seq<Seq<char>>>
    decreases vs,
{
    if vs.len() == 0 {
        Some(Seq::empty())
    } else {
        match (canonical_keys(vs.drop_last()), canonical_key(vs.last())) {
            (Some(ks), Some(k)) => Some(ks.push(k)),
            _ => None,
        }
    }
}

/// The canonical key of the primary key field of `r`.
pub open spec fn row_key(r: Row, pk: Seq<char>) -> Option<Seq<char>> {
    match row_get(r, pk) {
        Some(v) => canonical_key(v@),
        None => None,
    }
}

impl TableData {
    /// Shape invariants that hold whatever the schema: sorted keys and
    /// non-empty groups.
    pub open spec fn wf(&self) -> bool {
        match self {
            TableData::Indexed(es) => keys_sorted(es@),
            TableData::GroupedIndexed(gs) => keys_sorted(gs@) && forall|i: int|
                0 <= i < gs@.len() ==> (#[trigger] gs@[i]).1@.len() > 0,
            _ => true,
        }
    }
}

impl Table {
    /// The primary key discipline, if any header carries one.
    pub open spec fn kind(&self) -> Option<Seq<char>> {
        index_kind(self.headers@)
    }

    /// The structural invariants of a table: unique header names, a header map
    /// giving each name its position, a single primary key (the first header
    /// typed with an index discipline), a data shape that the key allows, and
    /// rows holding one entry per header.
    pub open spec fn wf(&self) -> bool {
        let hs = self.headers@;
        let p = pk_pos(hs);
        &&& forall|i: int, j: int|
            0 <= i < j < hs.len() ==> (#[trigger] hs[i]).name@ != (#[trigger] hs[j]).name@
        &&& self.header_map@.len() == hs.len()
        &&& forall|i: int|
            0 <= i < hs.len() ==> (#[trigger] self.header_map@[i]).0@ == hs[i].name@
                && self.header_map@[i].1 == i
        &&& forall|i: int| 0 <= i < hs.len() ==> (#[trigger] hs[i]).is_primary_key == (i == p)
        &&& opt_view(self.primary_key_field_name) == (if p >= 0 {
            Some(hs[p].name@)
        } else {
            None::<Seq<char>>
        })
        &&& self.data.wf()
        &&& match self.data {
            TableData::Sequential(rows) => rows_fit(rows@, hs) && (rows@.len() == 0
                || self.kind() is None || self.kind() == Some(kw_sindex())),
            TableData::Indexed(es) => self.kind() == Some(kw_index()) && forall|i: int|
                0 <= i < es@.len() ==> row_fits(#[trigger] es@[i].1, hs),
            TableData::GroupedIndexed(gs) => self.kind() == Some(kw_gindex()) && forall|i: int|
                0 <= i < gs@.len() ==> rows_fit(#[trigger] gs@[i].1@, hs),
            TableData::RawLines(_) => hs.len() == 0,
        }
    }

    /// Every key of a keyed table is the canonical key of its rows' primary
    /// key.
    pub open spec fn keys_consistent(&self) -> bool {
        let pk = match self.primary_key_field_name {
            Some(n) => n@,
            None => Seq::empty(),
        };
        match self.data {
            TableData::Indexed(es) => forall|i: int|
                0 <= i < es@.len() ==> row_key((#[trigger] es@[i]).1, pk) == Some(es@[i].0@),
            TableData::GroupedIndexed(gs) => forall|i: int, j: int|
                0 <= i < gs@.len() && 0 <= j < gs@[i].1@.len() ==> row_key(
                    #[trigger] gs@[i].1@[j],
                    pk,
                ) == Some(gs@[i].0@),
            _ => true,
        }
    }

    /// The rows of a `sindex` table hold their position as primary key.
    pub open spec fn numbered(&self) -> bool {
        let pk = pk_name(*self);
        match self.data {
            TableData::Sequential(rows) => self.kind() == Some(kw_sindex()) ==> forall|i: int|
                0 <= i < rows@.len() ==> (row_get(#[trigger] rows@[i], pk) matches Some(v) && v@
                    == ValueModel::Int(i)),
            _ => true,
        }
    }
}

impl Row {
    /// The value held under `field_name`, for writing.
    pub fn get_field_mut(&mut self, field_name: &str) -> (r: Option<&mut Value>)
        ensures
            ({
                let p = key_pos(old(self).fields@, field_name@);
                if p >= 0 {
                    r is Some && *r.unwrap() == old(self).fields@[p].1 && final(self).fields@
                        == old(self).fields@.update(p, (old(self).fields@[p].0, *final(r.unwrap())))
                } else {
                    r is None && *final(self) == *old(self)
                }
            }),
    {
        match find_key(&self.fields, field_name) {
            Some(p) => Some(&mut self.fields[p].1),
            None => None,
        }
    }
}

/// Position at which `key` belongs among sorted entries: the first entry
/// whose key is not below it.
fn sorted_position<V>(es: &Vec<(String, V)>, key: &[char]) -> (p: usize)
    requires
        keys_sorted(es@),
    ensures
        p <= es@.len(),
        forall|j: int| 0 <= j < p ==> seq_lt(#[trigger] es@[j].0@, key@),
        p < es@.len() ==> (es@[p as int].0@ == key@ || forall|j: int|
            p <= j < es@.len() ==> seq_lt(key@, #[trigger] es@[j].0@)),
        p < es@.len() ==> (es@[p as int].0@ == key@ <==> key_pos(es@, key@) >= 0),
        p == es@.len() ==> key_pos(es@, key@) == -1,
{
    let mut i: usize = 0;
    while i < es.len()
        invariant
            i <= es@.len(),
            keys_sorted(es@),
            forall|j: int| 0 <= j < i ==> seq_lt(#[trigger] es@[j].0@, key@),
        decreases es@.len() - i,
    {
        let kc = chars_of(es[i].0.as_str());
        if chars_cmp(&kc, key) >= 0 {
            proof {
                lemma_key_pos(es@, key@);
                if es@[i as int].0@ != key@ {
                    assert forall|j: int| i <= j < es@.len() implies seq_lt(key@, #[trigger] es@[j].0@) by {
                        if j > i {
                            lemma_lt_transitive(key@, es@[i as int].0@, es@[j].0@);
                        }
                    }
                    assert forall|j: int| 0 <= j < es@.len() implies es@[j].0@ != key@ by {
                        if j < i {
                            lemma_lt_irreflexive(key@);
                        } else {
                            lemma_lt_irreflexive(key@);
                        }
                    }
                } else {
                    assert forall|j: int| 0 <= j < i implies es@[j].0@ != key@ by {
                        lemma_lt_irreflexive(key@);
                    }
                }
            }
            return i;
        }
        i = i + 1;
    }
    proof {
        lemma_key_pos(es@, key@);
        assert forall|j: int| 0 <= j < es@.len() implies es@[j].0@ != key@ by {
            lemma_lt_irreflexive(key@);
        }
    }
    i
}

proof fn lemma_sorted_insert<V>(es: Seq<(String, V)>, p: int, e: (String, V))
    requires
        keys_sorted(es),
        0 <= p <= es.len(),
        forall|j: int| 0 <= j < p ==> seq_lt(#[trigger] es[j].0@, e.0@),
        forall|j: int| p <= j < es.len() ==> seq_lt(e.0@, #[trigger] es[j].0@),
    ensures
        keys_sorted(es.insert(p, e)),
{
    let n = es.insert(p, e);
    assert forall|i: int, j: int| 0 <= i < j < n.len() implies seq_lt(#[trigger] n[i].0@, #[trigger] n[j].0@) by {
        if i < p && j < p {
        } else if i < p && j == p {
        } else if i < p {
            assert(n[j] == es[j - 1]);
        } else if i == p {
            assert(n[j] == es[j - 1]);
        } else {
            assert(n[i] == es[i - 1]);
            assert(n[j] == es[j - 1]);
        }
    }
}

impl TableData {
    pub fn is_empty(&self) -> (r: bool)
        ensures
            r == match self {
                TableData::Sequential(rows) => rows@.len() == 0,
                TableData::Indexed(es) => es@.len() == 0,
                TableData::GroupedIndexed(gs) => gs@.len() == 0,
                TableData::RawLines(lines) => lines@.len() == 0,
            },
    {
        match self {
            TableData::Sequential(rows) => rows.len() == 0,
            TableData::Indexed(es) => es.len() == 0,
            TableData::GroupedIndexed(gs) => gs.len() == 0,
            TableData::RawLines(lines) => lines.len() == 0,
        }
    }

    pub fn get_sequential_row(&self, index: usize) -> (r: Option<&Row>)
        ensures
            match self {
                TableData::Sequential(rows) => if index < rows@.len() {
                    r is Some && *r.unwrap() == rows@[index as int]
                } else {
                    r is None
                },
                _ => r is None,
            },
    {
        match self {
            TableData::Sequential(rows) => {
                if index < rows.len() {
                    Some(&rows[index])
                } else {
                    None
                }
            },
            _ => None,
        }
    }

    pub fn get_sequential_row_mut(&mut self, index: usize) -> (r: Option<&mut Row>)
        ensures
            match *old(self) {
                TableData::Sequential(rows) => if index < rows@.len() {
                    r is Some && *r.unwrap() == rows@[index as int] && *final(self) is Sequential
                        && (*final(self))->Sequential_0@ == rows@.update(index as int, *final(r.unwrap()))
                } else {
                    r is None && *final(self) == *old(self)
                },
                _ => r is None && *final(self) == *old(self),
            },
    {
        match self {
            TableData::Sequential(rows) => {
                if index < rows.len() {
                    Some(&mut rows[index])
                } else {
                    None
                }
            },
            _ => None,
        }
    }

    pub fn get_indexed_row(&self, key: &str) -> (r: Option<&Row>)
        ensures
            match self {
                TableData::Indexed(es) => {
                    let p = key_pos(es@, key@);
                    if p >= 0 {
                        r is Some && *r.unwrap() == es@[p].1
                    } else {
                        r is None
                    }
                },
                _ => r is None,
            },
    {
        match self {
            TableData::Indexed(es) => match find_key(es, key) {
                Some(p) => Some(&es[p].1),
                None => None,
            },
            _ => None,
        }
    }

    pub fn get_indexed_row_mut(&mut self, key: &str) -> (r: Option<&mut Row>)
        ensures
            match *old(self) {
                TableData::Indexed(es) => {
                    let p = key_pos(es@, key@);
                    if p >= 0 {
                        r is Some && *r.unwrap() == es@[p].1 && *final(self) is Indexed
                            && (*final(self))->Indexed_0@ == es@.update(p, (es@[p].0, *final(r.unwrap())))
                    } else {
                        r is None && *final(self) == *old(self)
                    }
                },
                _ => r is None && *final(self) == *old(self),
            },
    {
        match self {
            TableData::Indexed(es) => match find_key(es, key) {
                Some(p) => Some(&mut es[p].1),
                None => None,
            },
            _ => None,
        }
    }

    pub fn get_grouped_rows(&self, key: &str) -> (r: Option<&Vec<Row>>)
        ensures
            match self {
                TableData::GroupedIndexed(gs) => {
                    let p = key_pos(gs@, key@);
                    if p >= 0 {
                        r is Some && *r.unwrap() == gs@[p].1
                    } else {
                        r is None
                    }
                },
                _ => r is None,
            },
    {
        match self {
            TableData::GroupedIndexed(gs) => match find_key(gs, key) {
                Some(p) => Some(&gs[p].1),
                None => None,
            },
            _ => None,
        }
    }

    pub fn get_grouped_rows_mut(&mut self, key: &str) -> (r: Option<&mut Vec<Row>>)
        ensures
            match *old(self) {
                TableData::GroupedIndexed(gs) => {
                    let p = key_pos(gs@, key@);
                    if p >= 0 {
                        r is Some && *r.unwrap() == gs@[p].1 && *final(self) is GroupedIndexed
                            && (*final(self))->GroupedIndexed_0@ == gs@.update(
                            p,
                            (gs@[p].0, *final(r.unwrap())),
                        )
                    } else {
                        r is None && *final(self) == *old(self)
                    }
                },
                _ => r is None && *final(self) == *old(self),
            },
    {
        match self {
            TableData::GroupedIndexed(gs) => match find_key(gs, key) {
                Some(p) => Some(&mut gs[p].1),
                None => None,
            },
            _ => None,
        }
    }

    /// Appends a row to sequential data.
    pub fn add_sequential_row(&mut self, row: Row) -> (r: Result<(), String>)
        ensures
            r is Ok <==> *old(self) is Sequential,
            r is Ok ==> *final(self) is Sequential && (*final(self))->Sequential_0@ == (*old(self))->Sequential_0@.push(row),
            r is Err ==> *final(self) == *old(self),
    {
        match self {
            TableData::Sequential(rows) => {
                rows.push(row);
                Ok(())
            },
            TableData::RawLines(_) => Err(
                "Cannot add parsed row to RawLines table data. Convert to Sequential first.".to_string(),
            ),
            _ => Err("Table is not sequential".to_string()),
        }
    }

    /// Inserts a row under a new key, keeping keys in ascending order.
    pub fn add_indexed_row(&mut self, key: String, row: Row) -> (r: Result<(), String>)
        requires
            old(self).wf(),
        ensures
            r is Ok <==> (*old(self) is Indexed && key_pos((*old(self))->Indexed_0@, key@) == -1),
            r is Ok ==> *final(self) is Indexed && exists|p: int|
                0 <= p <= (*old(self))->Indexed_0@.len() && (*final(self))->Indexed_0@ == (*old(self))->Indexed_0@.insert(p, (key, row)),
            r is Err ==> *final(self) == *old(self),
            final(self).wf(),
    {
        match self {
            TableData::Indexed(es) => {
                let kc = chars_of(key.as_str());
                let p = sorted_position(es, &kc);
                if p < es.len() {
                    let ec = chars_of(es[p].0.as_str());
                    if chars_eq(&ec, &kc) {
                        return Err(message("Key already exists in indexed table: ", key.as_str()));
                    }
                }
                proof {
                    lemma_sorted_insert(es@, p as int, (key, row));
                }
                es.insert(p, (key, row));
                Ok(())
            },
            TableData::RawLines(_) => Err(
                "Cannot add parsed row to RawLines table data. Convert to Indexed first.".to_string(),
            ),
            _ => Err("Table is not indexed".to_string()),
        }
    }

    /// Appends a row to the group of `key`, opening the group if needed.
    pub fn add_grouped_indexed_row(&mut self, key: String, row: Row) -> (r: Result<(), String>)
        requires
            old(self).wf(),
        ensures
            r is Ok <==> *old(self) is GroupedIndexed,
            r is Ok ==> *final(self) is GroupedIndexed,
            r is Ok && key_pos((*old(self))->GroupedIndexed_0@, key@) >= 0 ==> ({
                let gs = (*old(self))->GroupedIndexed_0@;
                let ns = (*final(self))->GroupedIndexed_0@;
                let p = key_pos(gs, key@);
                ns.len() == gs.len() && ns[p].0@ == key@ && ns[p].1@ == gs[p].1@.push(row)
                    && forall|j: int| 0 <= j < gs.len() && j != p ==> ns[j] == gs[j]
            }),
            r is Ok && key_pos((*old(self))->GroupedIndexed_0@, key@) < 0 ==> ({
                let gs = (*old(self))->GroupedIndexed_0@;
                let ns = (*final(self))->GroupedIndexed_0@;
                let q = key_pos(ns, key@);
                &&& ns.len() == gs.len() + 1
                &&& 0 <= q < ns.len()
                &&& ns[q].1@ == seq![row]
                &&& ns.remove(q) == gs
            }),
            r is Err ==> *final(self) == *old(self),
            final(self).wf(),
    {
        match self {
            TableData::GroupedIndexed(gs) => {
                let kc = chars_of(key.as_str());
                let p = sorted_position(gs, &kc);
                if p < gs.len() {
                    let ec = chars_of(gs[p].0.as_str());
                    if chars_eq(&ec, &kc) {
                        let ghost old_gs = gs@;
                        proof {
                            lemma_key_pos(gs@, kc@);
                            let kp = key_pos(gs@, kc@);
                            if kp < p {
                                assert(seq_lt(gs@[kp].0@, gs@[p as int].0@));
                                lemma_lt_irreflexive(kc@);
                            }
                        }
                        gs[p].1.push(row);
                        assert(gs@.len() == old_gs.len());
                        assert forall|i: int, j: int| 0 <= i < j < gs@.len() implies seq_lt(
                            #[trigger] gs@[i].0@,
                            #[trigger] gs@[j].0@,
                        ) by {
                            assert(gs@[i].0 == old_gs[i].0);
                            assert(gs@[j].0 == old_gs[j].0);
                        }
                        return Ok(());
                    }
                }
                let ghost old_gs = gs@;
                let ghost kv = key@;
                let mut bucket: Vec<Row> = Vec::new();
                bucket.push(row);
                proof {
                    lemma_sorted_insert(gs@, p as int, (key, bucket));
                    lemma_key_pos(gs@, kc@);
                }
                gs.insert(p, (key, bucket));
                assert(gs@.remove(p as int) == old_gs);
                assert(gs@[p as int].0@ == kv && gs@[p as int].1@ == seq![row]);
                assert(key_pos(old_gs, kv) == -1);
                proof {
                    lemma_key_pos(gs@, kv);
                    assert forall|j: int| 0 <= j < p implies gs@[j].0@ != kv by {
                        assert(gs@[j] == old_gs[j]);
                        lemma_lt_irreflexive(kv);
                    }
                }
                assert(key_pos(gs@, kv) == p);
                Ok(())
            },
            TableData::RawLines(_) => Err(
                "Cannot add parsed row to RawLines table data. Convert to GroupedIndexed first.".to_string(),
            ),
            _ => Err("Table is not group-indexed".to_string()),
        }
    }

    pub fn len_sequential(&self) -> (r: Option<usize>)
        ensures
            match self {
                TableData::Sequential(rows) => r is Some && r->0 == rows@.len(),
                _ => r is None,
            },
    {
        match self {
            TableData::Sequential(rows) => Some(rows.len()),
            _ => None,
        }
    }
}

pub fn kw_sindex_chars() -> (r: Vec<char>)
    ensures
        r@ == kw_sindex(),
{
    vec!['s', 'i', 'n', 'd', 'e', 'x']
}

pub fn kw_index_chars() -> (r: Vec<char>)
    ensures
        r@ == kw_index(),
{
    vec!['i', 'n', 'd', 'e', 'x']
}

pub fn kw_gindex_chars() -> (r: Vec<char>)
    ensures
        r@ == kw_gindex(),
{
    vec!['g', 'i', 'n', 'd', 'e', 'x']
}

pub open spec fn opt_str(o: Option<&str>) -> Option<Seq<char>> {
    match o {
        Some(s) => Some(s@),
        None => None,
    }
}

/// The name of the primary key field, or the empty name.
pub open spec fn pk_name(t: Table) -> Seq<char> {
    match t.primary_key_field_name {
        Some(n) => n@,
        None => Seq::empty(),
    }
}

/// The fields of `r` with the primary key set to `n`.
pub open spec fn numbered(r: Row, pk: Seq<char>, n: int) -> Seq<(String, Value)> {
    let p = key_pos(r.fields@, pk);
    r.fields@.update(p, (r.fields@[p].0, Value::Integer(n as i64)))
}

/// The fields of a row appended to a `sindex` table: those of `r` with the
/// primary key set to `n`, or added at the end when `r` lacks it.
pub open spec fn numbered_row(f: Seq<(String, Value)>, r: Row, pk: Seq<char>, n: int) -> bool {
    if key_pos(r.fields@, pk) >= 0 {
        f == numbered(r, pk, n)
    } else {
        f.len() == r.fields@.len() + 1 && f.drop_last() == r.fields@ && f.last().0@ == pk && f.last().1
            == Value::Integer(n as i64)
    }
}

impl Table {
    /// The type of the primary key header.
    pub fn get_index_type(&self) -> (r: Option<&str>)
        ensures
            self.wf() ==> opt_str(r) == self.kind(),
    {
        let mut i: usize = 0;
        while i < self.headers.len()
            invariant
                i <= self.headers@.len(),
                forall|j: int| 0 <= j < i ==> !(#[trigger] self.headers@[j]).is_primary_key,
            decreases self.headers@.len() - i,
        {
            if self.headers[i].is_primary_key {
                proof {
                    lemma_pk_pos(self.headers@);
                }
                return match &self.headers[i].type_info {
                    Some(t) => Some(t.as_str()),
                    None => None,
                };
            }
            i = i + 1;
        }
        proof {
            lemma_pk_pos(self.headers@);
        }
        None
    }

    /// Adds a row: a `sindex` table numbers it by position, an `index` table
    /// files it under the canonical key of its primary key (which must be
    /// new), a `gindex` table appends it to that key's group, and a table
    /// without a key appends it.
    pub fn add_row(&mut self, new_row: Row) -> (r: Result<(), String>)
        requires
            old(self).wf(),
        ensures
            final(self).name == old(self).name,
            final(self).headers == old(self).headers,
            final(self).header_map == old(self).header_map,
            final(self).primary_key_field_name == old(self).primary_key_field_name,
            r is Err ==> *final(self) == *old(self),
            row_fits(new_row, old(self).headers@) ==> final(self).wf(),
            old(self).kind() == Some(kw_sindex()) ==> ({
                let pk = pk_name(*old(self));
                &&& r is Ok <==> old(self).data is Sequential && old(self).data->Sequential_0@.len() <= i64::MAX
                &&& r is Ok ==> final(self).data is Sequential && ({
                    let rows = old(self).data->Sequential_0@;
                    let nrows = final(self).data->Sequential_0@;
                    nrows.len() == rows.len() + 1 && nrows.drop_last() == rows && numbered_row(
                        nrows.last().fields@,
                        new_row,
                        pk,
                        rows.len() as int,
                    )
                })
            }),
            old(self).kind() == Some(kw_index()) ==> ({
                let es = old(self).data->Indexed_0@;
                let k = row_key(new_row, pk_name(*old(self)));
                &&& r is Ok <==> (old(self).data is Indexed && k is Some && key_pos(es, k->0) == -1)
                &&& r is Ok ==> final(self).data is Indexed && exists|p: int, ks: String|
                    0 <= p <= es.len() && ks@ == k->0 && final(self).data->Indexed_0@ == es.insert(
                        p,
                        (ks, new_row),
                    )
            }),
            old(self).kind() == Some(kw_gindex()) ==> ({
                let k = row_key(new_row, pk_name(*old(self)));
                &&& r is Ok <==> (old(self).data is GroupedIndexed && k is Some)
                &&& r is Ok ==> final(self).data is GroupedIndexed && has_key(final(self).data->GroupedIndexed_0@, k->0)
                    && forall|kk: Seq<char>| has_key(old(self).data->GroupedIndexed_0@, kk) ==> has_key(final(self).data->GroupedIndexed_0@, kk)
                &&& r is Ok ==> ({
                    let gs = old(self).data->GroupedIndexed_0@;
                    let ns = final(self).data->GroupedIndexed_0@;
                    let p = key_pos(gs, k->0);
                    if p >= 0 {
                        ns.len() == gs.len() && ns[p].1@ == gs[p].1@.push(new_row) && ns[p].0@ == gs[p].0@
                            && forall|j: int| 0 <= j < gs.len() && j != p ==> ns[j] == gs[j]
                    } else {
                        let q = key_pos(ns, k->0);
                        ns.len() == gs.len() + 1 && 0 <= q < ns.len() && ns[q].1@ == seq![new_row] && ns.remove(q) == gs
                    }
                })
            }),
            old(self).kind() is None ==> ({
                &&& r is Ok <==> old(self).data is Sequential
                &&& r is Ok ==> final(self).data is Sequential && final(self).data->Sequential_0@
                    == old(self).data->Sequential_0@.push(new_row)
            }),
            old(self).keys_consistent() ==> final(self).keys_consistent(),
            old(self).numbered() ==> final(self).numbered(),
    {
        let ghost old_self = *self;
        let kind = self.get_index_type();
        let (is_s, is_i, is_g) = match kind {
            Some(t) => {
                let tc = chars_of(t);
                (
                    chars_eq(&tc, &kw_sindex_chars()),
                    chars_eq(&tc, &kw_index_chars()),
                    chars_eq(&tc, &kw_gindex_chars()),
                )
            },
            None => (false, false, false),
        };
        if kind.is_none() {
            let ghost rows0 = self.data->Sequential_0@;
            let r = self.data.add_sequential_row(new_row);
            proof {
                if r is Ok {
                    assert forall|i: int| 0 <= i < self.data->Sequential_0@.len() implies row_fits(
                        #[trigger] self.data->Sequential_0@[i],
                        self.headers@,
                    ) || !row_fits(new_row, self.headers@) by {
                        if i < rows0.len() {
                            assert(self.data->Sequential_0@[i] == rows0[i]);
                        }
                    }
                }
            }
            return r;
        }
        let pk = match &self.primary_key_field_name {
            Some(n) => n,
            None => {
                proof {
                    lemma_pk_pos(self.headers@);
                }
                return Err("Table missing primary key field name".to_string());
            },
        };
        if is_s {
            let n = match self.data.len_sequential() {
                Some(n) => n,
                None => {
                    return Err("Table is not sequential".to_string());
                },
            };
            if n as u128 > 0x7fff_ffff_ffff_ffff {
                return Err("Table is too large".to_string());
            }
            let mut row = new_row;
            let ghost kp = key_pos(row.fields@, pk@);
            proof {
                lemma_key_pos(new_row.fields@, pk@);
            }
            match row.get_field_mut(pk.as_str()) {
                Some(slot) => {
                    *slot = Value::Integer(n as i64);
                },
                None => {
                    row.fields.push((pk.clone(), Value::Integer(n as i64)));
                },
            }
            let ghost rows0 = self.data->Sequential_0@;
            assert(n as int == rows0.len());
            proof {
                if kp >= 0 {
                    lemma_key_pos_update(new_row.fields@, kp, (new_row.fields@[kp].0, Value::Integer(n as i64)), pk@);
                    assert(row.fields@ == numbered(new_row, pk@, n as int));
                } else {
                    assert(row.fields@.drop_last() == new_row.fields@);
                    assert(key_pos(row.fields@, pk@) == row.fields@.len() - 1);
                }
                lemma_key_pos(row.fields@, pk@);
                assert(numbered_row(row.fields@, new_row, pk@, n as int));
                if row_fits(new_row, self.headers@) {
                    lemma_pk_pos(self.headers@);
                    assert(new_row.fields@[pk_pos(self.headers@)].0@ == pk@);
                    assert(kp >= 0);
                    assert(row_fits(row, self.headers@));
                }
            }
            let r = self.data.add_sequential_row(row);
            assert(r is Ok);
            proof {
                let nrows = self.data->Sequential_0@;
                assert(nrows == rows0.push(row));
                assert(nrows.drop_last() == rows0);
                assert forall|i: int| 0 <= i < nrows.len() implies row_fits(#[trigger] nrows[i], self.headers@)
                    || !row_fits(new_row, self.headers@) by {
                    if i < rows0.len() {
                        assert(nrows[i] == rows0[i]);
                    }
                }
                if old_self.numbered() {
                    assert forall|i: int| 0 <= i < nrows.len() implies (row_get(#[trigger] nrows[i], pk@) matches Some(v) && v@ == ValueModel::Int(i)) by {
                        if i < rows0.len() {
                            assert(nrows[i] == rows0[i]);
                        } else {
                            assert(nrows[i] == row);
                            assert(row_get(row, pk@) == Some(Value::Integer(n as i64)));
                            assert(i == n as int);
                            assert((n as i64) as int == n as int);
                            assert(model_of(Value::Integer(n as i64)) == ValueModel::Int(i));
                        }
                    }
                }
            }
            return r;
        }
        if is_i || is_g {
            let p = match find_key(&new_row.fields, pk.as_str()) {
                Some(p) => p,
                None => {
                    proof {
                        assert(row_key(new_row, pk@) is None);
                    }
                    return Err(message("Missing primary key field in new row: ", pk.as_str()));
                },
            };
            let key = match crate::parser::value_to_string_key(&new_row.fields[p].1) {
                Ok(k) => k,
                Err(e) => {
                    return Err(e);
                },
            };
            let ghost kv = key@;
            proof {
                lemma_key_pos(new_row.fields@, pk@);
                assert(row_get(new_row, pk@) == Some(new_row.fields@[p as int].1));
                assert(row_key(new_row, pk@) == Some(kv));
            }
            if is_i {
                let ghost es0 = self.data->Indexed_0@;
                let r = self.data.add_indexed_row(key, new_row);
                proof {
                    if r is Ok {
                        let es = self.data->Indexed_0@;
                        let q = choose|q: int| 0 <= q <= es0.len() && es == es0.insert(q, (key, new_row));
                        assert(0 <= q <= es0.len() && key@ == kv && es == es0.insert(q, (key, new_row)));
                        assert forall|i: int| 0 <= i < es.len() implies row_fits(#[trigger] es[i].1, self.headers@)
                            || !row_fits(new_row, self.headers@) by {
                            if i < q {
                                assert(es[i] == es0[i]);
                            } else if i > q {
                                assert(es[i] == es0[i - 1]);
                            }
                        }
                        if old_self.keys_consistent() {
                            assert forall|i: int| 0 <= i < es.len() implies row_key((#[trigger] es[i]).1, pk@) == Some(es[i].0@) by {
                                if i < q {
                                    assert(es[i] == es0[i]);
                                } else if i > q {
                                    assert(es[i] == es0[i - 1]);
                                }
                            }
                        }
                    }
                }
                return r;
            } else {
                let ghost gs0 = self.data->GroupedIndexed_0@;
                let r = self.data.add_grouped_indexed_row(key, new_row);
                proof {
                    if r is Ok {
                        let gs = self.data->GroupedIndexed_0@;
                        lemma_key_pos(gs0, kv);
                        if key_pos(gs0, kv) >= 0 {
                            let q = key_pos(gs0, kv);
                            assert(gs[q].0@ == kv);
                            assert forall|kk: Seq<char>| has_key(gs0, kk) implies has_key(gs, kk) by {
                                let w = choose|w: int| 0 <= w < gs0.len() && (#[trigger] gs0[w]).0@ == kk;
                                if w != q {
                                    assert(gs[w] == gs0[w]);
                                } else {
                                    assert(gs[w].0@ == kk);
                                }
                            }
                        } else {
                            let q = key_pos(gs, kv);
                            lemma_key_pos(gs, kv);
                            assert(gs[q].0@ == kv);
                            assert forall|kk: Seq<char>| has_key(gs0, kk) implies has_key(gs, kk) by {
                                let w = choose|w: int| 0 <= w < gs0.len() && (#[trigger] gs0[w]).0@ == kk;
                                let w2 = if w < q { w } else { w + 1 };
                                assert(gs.remove(q)[w] == gs0[w]);
                                assert(gs[w2] == gs.remove(q)[w]);
                            }
                        }
                        if key_pos(gs0, kv) >= 0 {
                            let q = key_pos(gs0, kv);
                            assert forall|i: int| 0 <= i < gs.len() implies rows_fit(#[trigger] gs[i].1@, self.headers@)
                                || !row_fits(new_row, self.headers@) by {
                                if i == q {
                                    assert forall|j: int| 0 <= j < gs[i].1@.len() implies row_fits(#[trigger] gs[i].1@[j], self.headers@)
                                        || !row_fits(new_row, self.headers@) by {
                                        if j < gs0[i].1@.len() {
                                            assert(gs[i].1@[j] == gs0[i].1@[j]);
                                        }
                                    }
                                }
                            }
                            if old_self.keys_consistent() {
                                assert forall|i: int, j: int| 0 <= i < gs.len() && 0 <= j < gs[i].1@.len() implies row_key(#[trigger] gs[i].1@[j], pk@) == Some(gs[i].0@) by {
                                    if i == q {
                                        if j < gs0[i].1@.len() {
                                            assert(gs[i].1@[j] == gs0[i].1@[j]);
                                        }
                                    } else {
                                        assert(gs[i] == gs0[i]);
                                    }
                                }
                            }
                        } else {
                            let q = key_pos(gs, kv);
                            lemma_key_pos(gs, kv);
                            assert(row_key(new_row, pk@) == Some(kv));
                            assert forall|i: int| 0 <= i < gs.len() && i != q implies gs[i] == (if i < q { gs0[i] } else { gs0[i - 1] }) by {
                                assert(gs.remove(q)[if i < q { i } else { i - 1 }] == gs0[if i < q { i } else { i - 1 }]);
                            }
                            assert forall|i: int| 0 <= i < gs.len() implies rows_fit(#[trigger] gs[i].1@, self.headers@)
                                || !row_fits(new_row, self.headers@) by {
                                if i < q {
                                    assert(gs[i] == gs0[i]);
                                } else if i > q {
                                    assert(gs[i] == gs0[i - 1]);
                                }
                            }
                            if old_self.keys_consistent() {
                                assert forall|i: int, j: int| 0 <= i < gs.len() && 0 <= j < gs[i].1@.len() implies row_key(#[trigger] gs[i].1@[j], pk@) == Some(gs[i].0@) by {
                                    if i < q {
                                        assert(gs[i] == gs0[i]);
                                    } else if i > q {
                                        assert(gs[i] == gs0[i - 1]);
                                    } else {
                                        assert(gs[i].1@[j] == new_row);
                                    }
                                }
                            }
                        }
                    }
                }
                return r;
            }
        }
        proof {
            lemma_pk_pos(self.headers@);
        }
        Err("Adding rows to this table type is not supported".to_string())
    }
}

/// Position of the first table named `k`, or `-1`.
pub open spec fn table_pos(ts: Seq<Table>, k: Seq<char>) -> int
    decreases ts.len(),
{
    if ts.len() == 0 {
        -1
    } else {
        let p = table_pos(ts.drop_last(), k);
        if p >= 0 {
            p
        } else if ts.last().name@ == k {
            ts.len() - 1
        } else {
            -1
        }
    }
}

pub proof fn lemma_table_pos(ts: Seq<Table>, k: Seq<char>)
    ensures
        -1 <= table_pos(ts, k) < ts.len(),
        table_pos(ts, k) >= 0 ==> ts[table_pos(ts, k)].name@ == k,
        forall|j: int| 0 <= j < ts.len() && (table_pos(ts, k) < 0 || j < table_pos(ts, k)) ==> ts[j].name@ != k,
    decreases ts.len(),
{
    if ts.len() > 0 {
        lemma_table_pos(ts.drop_last(), k);
        assert forall|j: int| 0 <= j < ts.len() - 1 implies ts[j] == ts.drop_last()[j] by {}
    }
}

pub proof fn lemma_table_pos_names(ts: Seq<Table>, us: Seq<Table>, k: Seq<char>)
    requires
        ts.len() == us.len(),
        forall|j: int| 0 <= j < ts.len() ==> (#[trigger] ts[j]).name@ == us[j].name@,
    ensures
        table_pos(ts, k) == table_pos(us, k),
    decreases ts.len(),
{
    if ts.len() > 0 {
        lemma_table_pos_names(ts.drop_last(), us.drop_last(), k);
    }
}

/// The named tables of a document.
#[derive(Debug, PartialEq)]
pub struct DslRoot {
    pub tables: Vec<Table>,
}

impl DslRoot {
    /// Table names are unique and every table is well formed.
    pub open spec fn wf(&self) -> bool {
        &&& forall|i: int, j: int|
            0 <= i < j < self.tables@.len() ==> (#[trigger] self.tables@[i]).name@ != (
            #[trigger] self.tables@[j]).name@
        &&& forall|i: int| 0 <= i < self.tables@.len() ==> (#[trigger] self.tables@[i]).wf()
    }

    /// Every table keeps its keys consistent with its rows.
    pub open spec fn keys_consistent(&self) -> bool {
        forall|i: int| 0 <= i < self.tables@.len() ==> (#[trigger] self.tables@[i]).keys_consistent()
    }

    /// Every `sindex` table holds its rows' positions as their keys.
    pub open spec fn numbered(&self) -> bool {
        forall|i: int| 0 <= i < self.tables@.len() ==> (#[trigger] self.tables@[i]).numbered()
    }

    /// The table named `name`, if any.
    pub open spec fn table(&self, name: Seq<char>) -> Option<Table> {
        let p = table_pos(self.tables@, name);
        if p >= 0 {
            Some(self.tables@[p])
        } else {
            None
        }
    }

    pub fn new() -> (r: DslRoot)
        ensures
            r.tables@.len() == 0,
            r.wf(),
    {
        DslRoot { tables: Vec::new() }
    }

    pub fn len(&self) -> (r: usize)
        ensures
            r == self.tables@.len(),
    {
        self.tables.len()
    }

    /// Position of the table named `name`.
    pub fn position(&self, name: &str) -> (r: Option<usize>)
        ensures
            match r {
                Some(p) => p == table_pos(self.tables@, name@) && p < self.tables@.len(),
                None => table_pos(self.tables@, name@) == -1,
            },
    {
        let kc = chars_of(name);
        let mut i: usize = 0;
        while i < self.tables.len()
            invariant
                i <= self.tables@.len(),
                kc@ == name@,
                table_pos(self.tables@.take(i as int), name@) == -1,
            decreases self.tables@.len() - i,
        {
            assert(self.tables@.take(i + 1).drop_last() == self.tables@.take(i as int));
            let ec = chars_of(self.tables[i].name.as_str());
            if chars_eq(&ec, &kc) {
                proof {
                    lemma_table_pos(self.tables@, name@);
                    assert forall|j: int| 0 <= j < i implies self.tables@[j].name@ != name@ by {
                        lemma_table_pos(self.tables@.take(i as int), name@);
                        assert(self.tables@.take(i as int)[j] == self.tables@[j]);
                    }
                }
                return Some(i);
            }
            i = i + 1;
        }
        assert(self.tables@.take(i as int) == self.tables@);
        None
    }

    /// The table named `name`.
    pub fn get(&self, name: &str) -> (r: Option<&Table>)
        ensures
            match self.table(name@) {
                Some(t) => r is Some && *r.unwrap() == t,
                None => r is None,
            },
    {
        match self.position(name) {
            Some(p) => Some(&self.tables[p]),
            None => None,
        }
    }

    pub fn contains_key(&self, name: &str) -> (r: bool)
        ensures
            r == (self.table(name@) is Some),
    {
        self.position(name).is_some()
    }

    /// Installs `table` under its name, replacing a table of that name.
    pub fn insert(&mut self, table: Table)
        requires
            old(self).wf(),
            table.wf(),
        ensures
            final(self).wf(),
            final(self).table(table.name@) == Some(table),
            forall|k: Seq<char>| k != table.name@ ==> final(self).table(k) == old(self).table(k),
            old(self).keys_consistent() && table.keys_consistent() ==> final(self).keys_consistent(),
    {
        let ghost ts0 = self.tables@;
        let ghost nm = table.name@;
        proof {
            lemma_table_pos(ts0, nm);
        }
        match self.position(table.name.as_str()) {
            Some(p) => {
                self.tables.set(p, table);
                proof {
                    let ts = self.tables@;
                    assert forall|k: Seq<char>| #[trigger] table_pos(ts, k) == table_pos(ts0, k) by {
                        lemma_table_pos_names(ts, ts0, k);
                    }
                    assert forall|k: Seq<char>| k != nm implies self.table(k) == old(self).table(k) by {
                        lemma_table_pos(ts0, k);
                        lemma_table_pos_names(ts, ts0, k);
                    }
                }
            },
            None => {
                self.tables.push(table);
                proof {
                    let ts = self.tables@;
                    assert(ts.drop_last() == ts0);
                    assert forall|k: Seq<char>| k != nm implies self.table(k) == old(self).table(k) by {
                        lemma_table_pos(ts0, k);
                        assert(table_pos(ts, k) == table_pos(ts0, k));
                    }
                }
            },
        }
    }
}

impl DslRoot {
    /// Takes the table at position `p` out of the root.
    pub fn remove_at(&mut self, p: usize) -> (t: Table)
        requires
            old(self).wf(),
            p < old(self).tables@.len(),
        ensures
            final(self).wf(),
            t == old(self).tables@[p as int],
            final(self).tables@ == old(self).tables@.remove(p as int),
            old(self).keys_consistent() ==> final(self).keys_consistent(),
    {
        let ghost ts0 = self.tables@;
        let t = self.tables.remove(p);
        proof {
            let ts = self.tables@;
            assert forall|a: int, b: int| 0 <= a < b < ts.len() implies (#[trigger] ts[a]).name@ != (#[trigger] ts[b]).name@ by {
                let a0 = if a < p { a } else { a + 1 };
                let b0 = if b < p { b } else { b + 1 };
                assert(ts[a] == ts0[a0]);
                assert(ts[b] == ts0[b0]);
            }
            assert forall|a: int| 0 <= a < ts.len() implies (#[trigger] ts[a]).wf() && (ts0[if a < p { a } else { a + 1 }].keys_consistent() ==> ts[a].keys_consistent()) by {
                assert(ts[a] == ts0[if a < p { a } else { a + 1 }]);
            }
        }
        t
    }
}

} // verus!
