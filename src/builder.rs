//! Folding a document's statements into a root: structure copies first,
//! then references, then definitions, then updates and adds in order, and
//! packs last.
use vstd::prelude::*;
use crate::structs::{key_pos, DslRoot, Row, Table, TableData, find_key, rows_fit, table_pos, lemma_table_pos, lemma_table_pos_names};
use crate::parser::{DslStatement, statement_ok, parse_dsl_input, parse_data_line, fill_table, Shape, stmt_of, shape_ok, matches_shapes, scan, lines_of, some_fails};
use crate::query::{execute_update, execute_add, execute_pack, pack, update_effect, replaced, add_effect};
use crate::parser::strings_view;
use crate::text::{chars_of, message, trimmed};

verus! {

/// What building a document yields: the root, the text of each pack, and
/// the warnings of directives and operations that were skipped.
pub struct Build {
    pub root: DslRoot,
    pub packs: Vec<String>,
    pub warnings: Vec<String>,
}

/// Moves the first statement out of `sts`.
fn take_first(sts: &mut Vec<DslStatement>) -> (r: DslStatement)
    requires
        old(sts)@.len() > 0,
    ensures
        r == old(sts)@[0],
        final(sts)@ == old(sts)@.drop_first(),
{
    let r = sts.remove(0);
    assert(sts@ =~= old(sts)@.drop_first());
    r
}

/// The first definition of `name` among `sts`, from position `i` on.
pub open spec fn first_def(sts: Seq<DslStatement>, name: Seq<char>, i: int) -> Option<Table>
    decreases sts.len() - i,
{
    if i < 0 || i >= sts.len() {
        None
    } else if sts[i] is Definition && sts[i]->Definition_0@ == name {
        Some(sts[i]->Definition_1)
    } else {
        first_def(sts, name, i + 1)
    }
}

proof fn lemma_first_def_shapes(s1: Seq<DslStatement>, s2: Seq<DslStatement>, items: Seq<Shape>, name: Seq<char>, i: int)
    requires
        matches_shapes(s1, items),
        matches_shapes(s2, items),
        0 <= i <= items.len(),
    ensures
        first_def(s1, name, i) is None <==> first_def(s2, name, i) is None,
    decreases items.len() - i,
{
    if i < items.len() {
        assert(stmt_of(items[i], s1[i]) && stmt_of(items[i], s2[i]));
        lemma_first_def_shapes(s1, s2, items, name, i + 1);
    }
}

/// `t` is the first definition of `name` in the source text that `sources`
/// holds under `path`, read by the document reader.
pub open spec fn loaded(srcs: Seq<(String, String)>, path: Seq<char>, name: Seq<char>, t: Table) -> bool {
    let kp = key_pos(srcs, path);
    kp >= 0 && exists|sts: Seq<DslStatement>|
        matches_shapes(sts, scan(lines_of(srcs[kp].1@))) && #[trigger] first_def(sts, name, 0) == Some(t)
}

/// The source under `path` exists, reads, and defines `name`.
pub open spec fn loads(srcs: Seq<(String, String)>, path: Seq<char>, name: Seq<char>) -> bool {
    exists|t: Table| loaded(srcs, path, name, t)
}

/// The first definition of `name` among statements of another document.
fn take_definition(sts: Vec<DslStatement>, name: &str, Ghost(orig): Ghost<Seq<DslStatement>>) -> (r: Option<Table>)
    requires
        forall|j: int| 0 <= j < sts@.len() ==> statement_ok(#[trigger] sts@[j]),
        orig == sts@,
    ensures
        r == first_def(orig, name@, 0),
        r matches Some(t) ==> t.wf() && t.keys_consistent(),
{
    let ghost mut c: int = 0;
    let mut rest = sts;
    assert(rest@ == orig.skip(0));
    while rest.len() > 0
        invariant
            forall|j: int| 0 <= j < rest@.len() ==> statement_ok(#[trigger] rest@[j]),
            0 <= c <= orig.len(),
            rest@ == orig.skip(c),
            first_def(orig, name@, 0) == first_def(orig, name@, c),
        decreases rest@.len(),
    {
        let ghost s0 = rest@;
        let st = take_first(&mut rest);
        assert(st == orig[c]);
        assert(statement_ok(s0[0]));
        assert forall|j: int| 0 <= j < rest@.len() implies statement_ok(#[trigger] rest@[j]) by {
            assert(rest@[j] == s0[j + 1]);
        }
        let ghost sg = st;
        if let DslStatement::Definition(n, t) = st {
            if crate::text::str_eq(n.as_str(), name) {
                assert(sg->Definition_1 == t && sg->Definition_0 == n);
                assert(first_def(orig, name@, c) == Some(t));
                assert(first_def(orig, name@, 0) == Some(t));
                let r = Some(t);
                assert(r == first_def(orig, name@, 0));
                return r;
            }
        }
        proof {
            assert(rest@ =~= orig.skip(c + 1));
            c = c + 1;
        }
    }
    None
}

/// Loads `path` through `sources` and finds the definition of `name` in it.
fn load_definition(sources: &Vec<(String, String)>, path: &str, name: &str) -> (r: Result<Table, String>)
    ensures
        r matches Ok(t) ==> t.wf() && t.keys_consistent() && loaded(sources@, path@, name@, t),
        r is Err ==> !loads(sources@, path@, name@),
{
    let p = match find_key(sources, path) {
        Some(p) => p,
        None => {
            return Err(message("Source not found: ", path));
        },
    };
    let text = &sources[p].1;
    let ghost items = scan(lines_of(text@));
    let sts = match parse_dsl_input(text.as_str(), None) {
        Ok(s) => s,
        Err(e) => {
            proof {
                assert forall|t: Table| !loaded(sources@, path@, name@, t) by {
                    if loaded(sources@, path@, name@, t) {
                        let w = choose|w: Seq<DslStatement>| matches_shapes(w, items) && #[trigger] first_def(w, name@, 0) == Some(t);
                        assert forall|j: int| 0 <= j < items.len() implies shape_ok(#[trigger] items[j]) by {
                            assert(stmt_of(items[j], w[j]));
                        }
                    }
                }
            }
            return Err(e);
        },
    };
    let ghost sv = sts@;
    match take_definition(sts, name, Ghost(sv)) {
        Some(t) => Ok(t),
        None => {
            proof {
                assert forall|t: Table| !loaded(sources@, path@, name@, t) by {
                    if loaded(sources@, path@, name@, t) {
                        let w = choose|w: Seq<DslStatement>| matches_shapes(w, items) && #[trigger] first_def(w, name@, 0) == Some(t);
                        lemma_first_def_shapes(sv, w, items, name@, 0);
                    }
                }
            }
            Err(message("Source table not found: ", name))
        },
    }
}

/// Reads the pending lines of a copied table with its own headers.
fn rows_from_lines(t: &Table, lines: &Vec<String>) -> (r: Vec<Row>)
    ensures
        rows_fit(r@, t.headers@),
{
    let mut rows: Vec<Row> = Vec::new();
    let mut i: usize = 0;
    while i < lines.len()
        invariant
            rows_fit(rows@, t.headers@),
        decreases lines@.len() - i,
    {
        let tl = trimmed(&chars_of(lines[i].as_str()));
        if tl.len() > 0 && tl[0] != '#' {
            match parse_data_line(lines[i].as_str(), t.headers.as_slice(), t.header_map.as_slice()) {
                Ok(row) => {
                    let ghost r0 = rows@;
                    rows.push(row);
                    assert forall|k: int| 0 <= k < rows@.len() implies crate::structs::row_fits(#[trigger] rows@[k], t.headers@) by {
                        if k < r0.len() {
                            assert(rows@[k] == r0[k]);
                        }
                    }
                },
                Err(_) => {},
            }
        }
        i = i + 1;
    }
    rows
}

/// The statements of one kind: structure copies (0), references (1),
/// definitions (2), updates and adds (3).
pub open spec fn of_kind(st: DslStatement, kind: int) -> bool {
    match st {
        DslStatement::CopyStructure { .. } => kind == 0,
        DslStatement::Reference { .. } => kind == 1,
        DslStatement::Definition(_, _) => kind == 2,
        DslStatement::Update { .. } => kind == 3,
        DslStatement::Add { .. } => kind == 3,
        DslStatement::Pack { .. } => kind == 4,
    }
}

pub open spec fn filter_kind(sts: Seq<DslStatement>, kind: int) -> Seq<DslStatement>
    decreases sts.len(),
{
    if sts.len() == 0 {
        Seq::empty()
    } else {
        let r = filter_kind(sts.drop_last(), kind);
        if of_kind(sts.last(), kind) {
            r.push(sts.last())
        } else {
            r
        }
    }
}

/// `b` differs from `a` at most in the table named `k`.
pub open spec fn others_same(a: DslRoot, b: DslRoot, k: Seq<char>) -> bool {
    forall|x: Seq<char>| x != k ==> #[trigger] b.table(x) == a.table(x)
}

/// The targets of the structure copies among `sts` whose source loads.
pub open spec fn copy_targets(sts: Seq<DslStatement>, srcs: Seq<(String, String)>) -> Set<Seq<char>>
    decreases sts.len(),
{
    if sts.len() == 0 {
        Set::empty()
    } else {
        let r = copy_targets(sts.drop_last(), srcs);
        match sts.last() {
            DslStatement::CopyStructure { source_table_name: src, source_path: path, target_table_name: tgt } => if loads(
                srcs,
                path@,
                src@,
            ) {
                r.insert(tgt@)
            } else {
                r
            },
            _ => r,
        }
    }
}

/// The targets of the references among `sts` whose source loads.
pub open spec fn ref_targets(sts: Seq<DslStatement>, srcs: Seq<(String, String)>) -> Set<Seq<char>>
    decreases sts.len(),
{
    if sts.len() == 0 {
        Set::empty()
    } else {
        let r = ref_targets(sts.drop_last(), srcs);
        match sts.last() {
            DslStatement::Reference { source_table_name: src, source_path: path, target_table_name: tgt } => if loads(
                srcs,
                path@,
                src@,
            ) {
                r.insert(tgt@)
            } else {
                r
            },
            _ => r,
        }
    }
}

/// The tables that structure copies create and no reference replaces: the
/// ones a definition block may fill.
pub open spec fn shells_of(sts: Seq<DslStatement>, srcs: Seq<(String, String)>) -> Set<Seq<char>> {
    copy_targets(filter_kind(sts, 0), srcs).difference(ref_targets(filter_kind(sts, 1), srcs))
}

pub open spec fn vec_has(v: Seq<Vec<char>>, x: Seq<char>) -> bool {
    exists|j: int| 0 <= j < v.len() && (#[trigger] v[j])@ == x
}

fn has_name(v: &Vec<Vec<char>>, x: &[char]) -> (r: bool)
    ensures
        r == vec_has(v@, x@),
{
    let mut i: usize = 0;
    while i < v.len()
        invariant
            i <= v@.len(),
            forall|j: int| 0 <= j < i ==> (#[trigger] v@[j])@ != x@,
        decreases v@.len() - i,
    {
        if crate::text::chars_eq(&v[i], x) {
            return true;
        }
        i = i + 1;
    }
    false
}

/// One statement of a phase, taking root `a` to root `b`:
/// - a structure copy installs, under its target name, a table with the
///   loaded table's schema and no rows;
/// - a reference installs the loaded table itself under its target name;
/// - a definition is installed under its name when the name is new; fills
///   an empty sequential table of that name from its pending lines, with
///   that table's schema; replaces such an empty table when it carries its
///   own schema; and is ignored when the table holds data;
/// - an update and an add act as `execute_update` and `execute_add` do.
/// A directive whose source does not load leaves the root as it is.
pub open spec fn step(kind: int, a: DslRoot, st: DslStatement, srcs: Seq<(String, String)>, sh: Set<Seq<char>>, b: DslRoot) -> bool {
    match st {
        DslStatement::CopyStructure { source_table_name: src, source_path: path, target_table_name: tgt } => if loads(
            srcs,
            path@,
            src@,
        ) {
            exists|t: Table|
                #[trigger] loaded(srcs, path@, src@, t) && others_same(a, b, tgt@) && (b.table(tgt@) matches Some(n)
                    && n.name@ == tgt@ && n.headers == t.headers && n.header_map == t.header_map
                    && n.primary_key_field_name == t.primary_key_field_name && n.data is Sequential
                    && n.data->Sequential_0@.len() == 0)
        } else {
            b.tables@ == a.tables@
        },
        DslStatement::Reference { source_table_name: src, source_path: path, target_table_name: tgt } => if loads(
            srcs,
            path@,
            src@,
        ) {
            exists|t: Table|
                #[trigger] loaded(srcs, path@, src@, t) && others_same(a, b, tgt@) && (b.table(tgt@) matches Some(n)
                    && n.name@ == tgt@ && n.headers == t.headers && n.header_map == t.header_map
                    && n.primary_key_field_name == t.primary_key_field_name && n.data == t.data)
        } else {
            b.tables@ == a.tables@
        },
        DslStatement::Definition(name, t) => match a.table(name@) {
            None => b.table(name@) == Some(t) && others_same(a, b, name@),
            Some(e) => if !(sh.contains(name@) && e.data is Sequential && e.data->Sequential_0@.len() == 0) {
                b.tables@ == a.tables@
            } else {
                match t.data {
                    TableData::RawLines(lines) => if lines@.len() == 0 || e.headers@.len() == 0 {
                        b.tables@ == a.tables@
                    } else {
                        others_same(a, b, name@) && (b.table(name@) matches Some(n) && n.name == e.name
                            && n.headers == e.headers && n.header_map == e.header_map
                            && n.primary_key_field_name == e.primary_key_field_name && n.wf() && n.keys_consistent())
                    },
                    _ => b.table(name@) == Some(t) && others_same(a, b, name@),
                }
            },
        },
        DslStatement::Update { path, value_str } => match update_effect(a, path@, value_str@) {
            Some((p, v)) => replaced(a, b, p, v),
            None => b.tables@ == a.tables@,
        },
        DslStatement::Add { table_name } => add_effect(a, table_name@, b),
        DslStatement::Pack { .. } => b.tables@ == a.tables@,
    }
}

/// The roots `rs` run through the statements `sts` one by one: each
/// statement takes the root before it to the root after it.
pub open spec fn trace_ok(kind: int, rs: Seq<DslRoot>, sts: Seq<DslStatement>, srcs: Seq<(String, String)>, sh: Set<Seq<char>>) -> bool {
    rs.len() == sts.len() + 1 && forall|i: int| 0 <= i < sts.len() ==> step(kind, rs[i], #[trigger] sts[i], srcs, sh, rs[i + 1])
}

proof fn lemma_trace_push(kind: int, rs: Seq<DslRoot>, sts: Seq<DslStatement>, st: DslStatement, srcs: Seq<(String, String)>, sh: Set<Seq<char>>, b: DslRoot)
    requires
        trace_ok(kind, rs, sts, srcs, sh),
        step(kind, rs.last(), st, srcs, sh, b),
    ensures
        trace_ok(kind, rs.push(b), sts.push(st), srcs, sh),
{
    assert forall|i: int| 0 <= i < sts.len() + 1 implies step(kind, rs.push(b)[i], #[trigger] sts.push(st)[i], srcs, sh, rs.push(b)[i + 1]) by {
        if i < sts.len() {
            assert(sts.push(st)[i] == sts[i]);
            assert(rs.push(b)[i] == rs[i]);
            assert(rs.push(b)[i + 1] == rs[i + 1]);
        } else {
            assert(rs.push(b)[i] == rs.last());
        }
    }
}

/// What building statements `sts` with sources `srcs` yields: the root after
/// the structure copies, then the references, then the definitions, then
/// the updates and adds in order; and the texts of the packs that succeed
/// on that root.
pub open spec fn built(sts: Seq<DslStatement>, srcs: Seq<(String, String)>, b: Build) -> bool {
    let shv = shells_of(sts, srcs);
    &&& exists|t0: Seq<DslRoot>, t1: Seq<DslRoot>, t2: Seq<DslRoot>, t3: Seq<DslRoot>|
        #[trigger] trace_ok(0, t0, filter_kind(sts, 0), srcs, shv) && #[trigger] trace_ok(1, t1, filter_kind(sts, 1), srcs, shv)
            && #[trigger] trace_ok(2, t2, filter_kind(sts, 2), srcs, shv) && #[trigger] trace_ok(3, t3, filter_kind(sts, 3), srcs, shv)
            && t0[0].tables@.len() == 0 && t1[0] == t0.last() && t2[0] == t1.last() && t3[0] == t2.last()
            && t3.last() == b.root
    &&& strings_view(b.packs@) == pack_outputs(b.root, pack_lists(sts))
    &&& b.root.wf()
}


/// The names of the tables that a document's definition blocks define.
pub open spec fn def_names(sts: Seq<DslStatement>) -> Seq<Seq<char>>
    decreases sts.len(),
{
    if sts.len() == 0 {
        Seq::empty()
    } else {
        let r = def_names(sts.drop_last());
        match sts.last() {
            DslStatement::Definition(n, _) => r.push(n@),
            _ => r,
        }
    }
}

/// The table lists of a document's `pack` statements, in order.
pub open spec fn pack_lists(sts: Seq<DslStatement>) -> Seq<Seq<String>>
    decreases sts.len(),
{
    if sts.len() == 0 {
        Seq::empty()
    } else {
        let r = pack_lists(sts.drop_last());
        match sts.last() {
            DslStatement::Pack { table_names } => r.push(table_names@),
            _ => r,
        }
    }
}

/// The texts of the packs that succeed on `root`, in order.
pub open spec fn pack_outputs(root: DslRoot, ls: Seq<Seq<String>>) -> Seq<Seq<char>>
    decreases ls.len(),
{
    if ls.len() == 0 {
        Seq::empty()
    } else {
        let r = pack_outputs(root, ls.drop_last());
        match pack(root, ls.last()) {
            Some(x) => r.push(x),
            None => r,
        }
    }
}

proof fn lemma_all_defs(s: Seq<DslStatement>)
    requires
        forall|j: int| 0 <= j < s.len() ==> (#[trigger] s[j]) is Definition,
    ensures
        def_names(s).len() == s.len(),
        forall|k: int| 0 <= k < s.len() ==> #[trigger] def_names(s)[k] == s[k]->Definition_0@,
    decreases s.len(),
{
    if s.len() > 0 {
        lemma_all_defs(s.drop_last());
        assert forall|k: int| 0 <= k < s.len() - 1 implies s[k] == s.drop_last()[k] by {}
    }
}

proof fn lemma_all_packs(s: Seq<DslStatement>)
    requires
        forall|j: int| 0 <= j < s.len() ==> (#[trigger] s[j]) is Pack,
    ensures
        pack_lists(s).len() == s.len(),
        forall|k: int| 0 <= k < s.len() ==> #[trigger] pack_lists(s)[k] == s[k]->table_names@,
    decreases s.len(),
{
    if s.len() > 0 {
        lemma_all_packs(s.drop_last());
        assert forall|k: int| 0 <= k < s.len() - 1 implies s[k] == s.drop_last()[k] by {}
    }
}

proof fn lemma_has_table(ts: Seq<Table>, k: Seq<char>)
    ensures
        table_pos(ts, k) >= 0 <==> exists|i: int| 0 <= i < ts.len() && (#[trigger] ts[i]).name@ == k,
{
    lemma_table_pos(ts, k);
    if table_pos(ts, k) >= 0 {
        assert(ts[table_pos(ts, k)].name@ == k);
    }
}

proof fn lemma_remove_same(a: DslRoot, b: DslRoot, p: int, x: Seq<char>)
    requires
        a.wf(),
        0 <= p < a.tables@.len(),
        b.tables@ == a.tables@.remove(p),
        a.tables@[p].name@ != x,
    ensures
        b.table(x) == a.table(x),
{
    let ta = a.tables@;
    let tb = b.tables@;
    lemma_table_pos(ta, x);
    lemma_table_pos(tb, x);
    let i = table_pos(ta, x);
    let j = table_pos(tb, x);
    if i >= 0 {
        let i2 = if i < p { i } else { i - 1 };
        assert(tb[i2] == ta[i]);
        if j >= 0 && j < i2 {
            let j0 = if j < p { j } else { j + 1 };
            assert(tb[j] == ta[j0]);
        }
        assert(j == i2);
    } else if j >= 0 {
        let j0 = if j < p { j } else { j + 1 };
        assert(tb[j] == ta[j0]);
    }
}

proof fn lemma_remove_keeps(ts: Seq<Table>, p: int, k: Seq<char>)
    requires
        0 <= p < ts.len(),
        ts[p].name@ != k,
        table_pos(ts, k) >= 0,
    ensures
        table_pos(ts.remove(p), k) >= 0,
{
    lemma_has_table(ts, k);
    lemma_has_table(ts.remove(p), k);
    let i = choose|i: int| 0 <= i < ts.len() && (#[trigger] ts[i]).name@ == k;
    if i < p {
        assert(ts.remove(p)[i] == ts[i]);
    } else {
        assert(ts.remove(p)[i - 1] == ts[i]);
    }
}

/// Builds a root from a document's statements, loading the sources that
/// structure copies and references name from `sources` (path, text).
pub fn build_root(statements: Vec<DslStatement>, sources: &Vec<(String, String)>) -> (r: Build)
    requires
        forall|j: int| 0 <= j < statements@.len() ==> statement_ok(#[trigger] statements@[j]),
    ensures
        built(statements@, sources@, r),
        r.root.wf(),
        r.root.keys_consistent(),
        forall|k: int| 0 <= k < def_names(statements@).len() ==> r.root.table(#[trigger] def_names(statements@)[k]) is Some,
        strings_view(r.packs@) == pack_outputs(r.root, pack_lists(statements@)),
{
    let ghost orig = statements@;
    let mut input = statements;
    let mut copies: Vec<DslStatement> = Vec::new();
    let mut refs: Vec<DslStatement> = Vec::new();
    let mut defs: Vec<DslStatement> = Vec::new();
    let mut ops: Vec<DslStatement> = Vec::new();
    let mut packs: Vec<DslStatement> = Vec::new();
    let mut warnings: Vec<String> = Vec::new();
    let ghost mut consumed: int = 0;
    while input.len() > 0
        invariant
            0 <= consumed <= orig.len(),
            input@ == orig.skip(consumed),
            forall|j: int| 0 <= j < orig.len() ==> statement_ok(#[trigger] orig[j]),
            forall|j: int| 0 <= j < defs@.len() ==> statement_ok(#[trigger] defs@[j]),
            forall|j: int| 0 <= j < defs@.len() ==> (#[trigger] defs@[j]) is Definition,
            forall|j: int| 0 <= j < packs@.len() ==> (#[trigger] packs@[j]) is Pack,
            def_names(defs@) == def_names(orig.take(consumed)),
            pack_lists(packs@) == pack_lists(orig.take(consumed)),
            copies@ == filter_kind(orig.take(consumed), 0),
            refs@ == filter_kind(orig.take(consumed), 1),
            defs@ == filter_kind(orig.take(consumed), 2),
            ops@ == filter_kind(orig.take(consumed), 3),
            forall|j: int| 0 <= j < copies@.len() ==> of_kind(#[trigger] copies@[j], 0),
            forall|j: int| 0 <= j < refs@.len() ==> of_kind(#[trigger] refs@[j], 1),
            forall|j: int| 0 <= j < ops@.len() ==> of_kind(#[trigger] ops@[j], 3),
            forall|j: int| 0 <= j < ops@.len() ==> statement_ok(#[trigger] ops@[j]),
        decreases input@.len(),
    {
        let ghost i0 = input@;
        let st = take_first(&mut input);
        assert(st == orig[consumed]);
        proof {
            assert(input@ =~= orig.skip(consumed + 1));
            assert(orig.take(consumed + 1).drop_last() == orig.take(consumed));
            assert(orig.take(consumed + 1).last() == st);
            consumed = consumed + 1;
        }
        let ghost d_before = defs@;
        let ghost p_before = packs@;
        match st {
            DslStatement::Definition(_, _) => {
                let ghost d0 = defs@;
                defs.push(st);
                assert forall|j: int| 0 <= j < defs@.len() implies statement_ok(#[trigger] defs@[j]) && defs@[j] is Definition by {
                    if j < d0.len() {
                        assert(defs@[j] == d0[j]);
                    }
                }
                assert(defs@.drop_last() == d0);
            },
            DslStatement::Update { .. } | DslStatement::Add { .. } => {
                let ghost o0 = ops@;
                ops.push(st);
                assert forall|j: int| 0 <= j < ops@.len() implies statement_ok(#[trigger] ops@[j]) && of_kind(ops@[j], 3) by {
                    if j < o0.len() {
                        assert(ops@[j] == o0[j]);
                    }
                }
            },
            DslStatement::CopyStructure { .. } => {
                let ghost c0 = copies@;
                copies.push(st);
                assert forall|j: int| 0 <= j < copies@.len() implies of_kind(#[trigger] copies@[j], 0) by {
                    if j < c0.len() {
                        assert(copies@[j] == c0[j]);
                    }
                }
            },
            DslStatement::Reference { .. } => {
                let ghost f0 = refs@;
                refs.push(st);
                assert forall|j: int| 0 <= j < refs@.len() implies of_kind(#[trigger] refs@[j], 1) by {
                    if j < f0.len() {
                        assert(refs@[j] == f0[j]);
                    }
                }
            },
            DslStatement::Pack { .. } => {
                packs.push(st);
                assert(packs@.drop_last() == p_before);
                assert forall|j: int| 0 <= j < packs@.len() implies (#[trigger] packs@[j]) is Pack by {
                    if j < p_before.len() {
                        assert(packs@[j] == p_before[j]);
                    }
                }
            },
        }
    }
    assert(orig.take(orig.len() as int) == orig);
    assert(consumed == orig.len());
    let mut root = DslRoot::new();
    let ghost srcs = sources@;
    let ghost shv = shells_of(orig, srcs);
    let mut copied: Vec<Vec<char>> = Vec::new();
    let mut referenced: Vec<Vec<char>> = Vec::new();
    let ghost mut tr0: Seq<DslRoot> = seq![root];
    let mut i: usize = 0;
    assert(copies@.take(0) == Seq::<DslStatement>::empty());
    while i < copies.len()
        invariant
            i <= copies@.len(),
            tr0[0].tables@.len() == 0,
            srcs == sources@,
            copies@ == filter_kind(orig, 0),
            refs@ == filter_kind(orig, 1),
            defs@ == filter_kind(orig, 2),
            ops@ == filter_kind(orig, 3),
            forall|j: int| 0 <= j < copies@.len() ==> of_kind(#[trigger] copies@[j], 0),
            forall|j: int| 0 <= j < refs@.len() ==> of_kind(#[trigger] refs@[j], 1),
            forall|j: int| 0 <= j < ops@.len() ==> of_kind(#[trigger] ops@[j], 3),
            forall|j: int| 0 <= j < ops@.len() ==> statement_ok(#[trigger] ops@[j]),
            trace_ok(0, tr0, copies@.take(i as int), srcs, shv),
            shv == shells_of(orig, srcs),
            forall|x: Seq<char>| vec_has(copied@, x) <==> #[trigger] copy_targets(copies@.take(i as int), srcs).contains(x),
            referenced@.len() == 0,
            tr0.last() == root,
            root.wf(),
            root.keys_consistent(),
            def_names(defs@) == def_names(orig),
            pack_lists(packs@) == pack_lists(orig),
            forall|j: int| 0 <= j < defs@.len() ==> (#[trigger] defs@[j]) is Definition,
            forall|j: int| 0 <= j < defs@.len() ==> statement_ok(#[trigger] defs@[j]),
            forall|j: int| 0 <= j < packs@.len() ==> (#[trigger] packs@[j]) is Pack,
        decreases copies@.len() - i,
    {
        let ghost m = root;
        assert(copies@.take(i + 1).drop_last() == copies@.take(i as int));
        assert(copies@.take(i + 1).last() == copies@[i as int]);
        if let DslStatement::CopyStructure { source_table_name, source_path, target_table_name } = &copies[i] {
            let ghost cv = copied@;
            match load_definition(sources, source_path.as_str(), source_table_name.as_str()) {
                Ok(src) => {
                    let ghost sg = src;
                    let shell = Table {
                        name: target_table_name.clone(),
                        headers: src.headers,
                        header_map: src.header_map,
                        data: TableData::Sequential(Vec::new()),
                        primary_key_field_name: src.primary_key_field_name,
                    };
                    if root.contains_key(target_table_name.as_str()) {
                        warnings.push(message("Structure copy overwrites table: ", target_table_name.as_str()));
                    }
                    root.insert(shell);
                    assert(loaded(srcs, source_path@, source_table_name@, sg));
                    let ghost s0 = copied@;
                    copied.push(chars_of(target_table_name.as_str()));
                    proof {
                        assert(loads(srcs, source_path@, source_table_name@));
                        assert forall|x: Seq<char>| vec_has(copied@, x) <==> #[trigger] copy_targets(copies@.take(i + 1), srcs).contains(x) by {
                            assert(copy_targets(copies@.take(i + 1), srcs) == copy_targets(copies@.take(i as int), srcs).insert(target_table_name@));
                            if vec_has(s0, x) {
                                let j = choose|j: int| 0 <= j < s0.len() && (#[trigger] s0[j])@ == x;
                                assert(copied@[j] == s0[j]);
                            }
                            if vec_has(copied@, x) {
                                let j = choose|j: int| 0 <= j < copied@.len() && (#[trigger] copied@[j])@ == x;
                                if j < s0.len() {
                                    assert(copied@[j] == s0[j]);
                                }
                            }
                            if x == target_table_name@ {
                                assert(copied@[s0.len() as int]@ == x);
                            }
                        }
                    }
                },
                Err(e) => {
                    warnings.push(e);
                    assert(copy_targets(copies@.take(i + 1), srcs) == copy_targets(copies@.take(i as int), srcs));
                },
            }
        }
        assert(step(0, m, copies@[i as int], srcs, shv, root));
        proof {
            lemma_trace_push(0, tr0, copies@.take(i as int), copies@[i as int], srcs, shv, root);
            assert(copies@.take(i as int).push(copies@[i as int]) == copies@.take(i + 1));
            tr0 = tr0.push(root);
        }
        i = i + 1;
    }
    assert(copies@.take(copies@.len() as int) == copies@);
    let ghost mut tr1: Seq<DslRoot> = seq![root];
    let mut i: usize = 0;
    assert(refs@.take(0) == Seq::<DslStatement>::empty());
    assert(copies@.take(copies@.len() as int) == copies@);
    while i < refs.len()
        invariant
            i <= refs@.len(),
            srcs == sources@,
            trace_ok(0, tr0, filter_kind(orig, 0), srcs, shv),
            tr0[0].tables@.len() == 0,
            tr1[0] == tr0.last(),
            refs@ == filter_kind(orig, 1),
            defs@ == filter_kind(orig, 2),
            ops@ == filter_kind(orig, 3),
            forall|j: int| 0 <= j < refs@.len() ==> of_kind(#[trigger] refs@[j], 1),
            forall|j: int| 0 <= j < ops@.len() ==> of_kind(#[trigger] ops@[j], 3),
            forall|j: int| 0 <= j < ops@.len() ==> statement_ok(#[trigger] ops@[j]),
            trace_ok(1, tr1, refs@.take(i as int), srcs, shv),
            shv == shells_of(orig, srcs),
            copies@ == filter_kind(orig, 0),
            forall|x: Seq<char>| vec_has(copied@, x) <==> #[trigger] copy_targets(copies@, srcs).contains(x),
            forall|x: Seq<char>| vec_has(referenced@, x) <==> #[trigger] ref_targets(refs@.take(i as int), srcs).contains(x),
            tr1.last() == root,
            root.wf(),
            root.keys_consistent(),
            def_names(defs@) == def_names(orig),
            pack_lists(packs@) == pack_lists(orig),
            forall|j: int| 0 <= j < defs@.len() ==> (#[trigger] defs@[j]) is Definition,
            forall|j: int| 0 <= j < defs@.len() ==> statement_ok(#[trigger] defs@[j]),
            forall|j: int| 0 <= j < packs@.len() ==> (#[trigger] packs@[j]) is Pack,
        decreases refs@.len() - i,
    {
        let ghost m = root;
        assert(refs@.take(i + 1).drop_last() == refs@.take(i as int));
        assert(refs@.take(i + 1).last() == refs@[i as int]);
        if let DslStatement::Reference { source_table_name, source_path, target_table_name } = &refs[i] {
            match load_definition(sources, source_path.as_str(), source_table_name.as_str()) {
                Ok(src) => {
                    let ghost sg = src;
                    let mut t = src;
                    t.name = target_table_name.clone();
                    root.insert(t);
                    assert(loaded(srcs, source_path@, source_table_name@, sg));
                    let ghost s0 = referenced@;
                    referenced.push(chars_of(target_table_name.as_str()));
                    proof {
                        assert(loads(srcs, source_path@, source_table_name@));
                        assert forall|x: Seq<char>| vec_has(referenced@, x) <==> #[trigger] ref_targets(refs@.take(i + 1), srcs).contains(x) by {
                            assert(ref_targets(refs@.take(i + 1), srcs) == ref_targets(refs@.take(i as int), srcs).insert(target_table_name@));
                            if vec_has(s0, x) {
                                let j = choose|j: int| 0 <= j < s0.len() && (#[trigger] s0[j])@ == x;
                                assert(referenced@[j] == s0[j]);
                            }
                            if vec_has(referenced@, x) {
                                let j = choose|j: int| 0 <= j < referenced@.len() && (#[trigger] referenced@[j])@ == x;
                                if j < s0.len() {
                                    assert(referenced@[j] == s0[j]);
                                }
                            }
                            if x == target_table_name@ {
                                assert(referenced@[s0.len() as int]@ == x);
                            }
                        }
                    }
                },
                Err(e) => {
                    warnings.push(e);
                    assert(ref_targets(refs@.take(i + 1), srcs) == ref_targets(refs@.take(i as int), srcs));
                },
            }
        }
        assert(step(1, m, refs@[i as int], srcs, shv, root));
        proof {
            lemma_trace_push(1, tr1, refs@.take(i as int), refs@[i as int], srcs, shv, root);
            assert(refs@.take(i as int).push(refs@[i as int]) == refs@.take(i + 1));
            tr1 = tr1.push(root);
        }
        i = i + 1;
    }
    assert(refs@.take(refs@.len() as int) == refs@);
    let ghost mut tr2: Seq<DslRoot> = seq![root];
    assert(refs@.take(refs@.len() as int) == refs@);
    assert forall|x: Seq<char>| (vec_has(copied@, x) && !vec_has(referenced@, x)) <==> #[trigger] shv.contains(x) by {}
    let mut defs = defs;
    let ghost defs0 = defs@;
    let ghost mut c: int = 0;
    proof {
        lemma_all_defs(defs0);
    }
    assert(defs@ == defs0.skip(0));
    assert(defs0.take(0) == Seq::<DslStatement>::empty());
    while defs.len() > 0
        invariant
            srcs == sources@,
            trace_ok(0, tr0, filter_kind(orig, 0), srcs, shv),
            trace_ok(1, tr1, filter_kind(orig, 1), srcs, shv),
            tr0[0].tables@.len() == 0,
            tr1[0] == tr0.last(),
            tr2[0] == tr1.last(),
            defs0 == filter_kind(orig, 2),
            ops@ == filter_kind(orig, 3),
            forall|j: int| 0 <= j < ops@.len() ==> of_kind(#[trigger] ops@[j], 3),
            forall|j: int| 0 <= j < ops@.len() ==> statement_ok(#[trigger] ops@[j]),
            trace_ok(2, tr2, defs0.take(c), srcs, shv),
            shv == shells_of(orig, srcs),
            forall|x: Seq<char>| (vec_has(copied@, x) && !vec_has(referenced@, x)) <==> #[trigger] shv.contains(x),
            tr2.last() == root,
            root.wf(),
            root.keys_consistent(),
            forall|j: int| 0 <= j < defs@.len() ==> statement_ok(#[trigger] defs@[j]),
            0 <= c <= defs0.len(),
            defs@ == defs0.skip(c),
            forall|j: int| 0 <= j < defs0.len() ==> (#[trigger] defs0[j]) is Definition,
            forall|k: int| 0 <= k < c ==> root.table(#[trigger] defs0[k]->Definition_0@) is Some,
            def_names(defs0) == def_names(orig),
            pack_lists(packs@) == pack_lists(orig),
            forall|j: int| 0 <= j < packs@.len() ==> (#[trigger] packs@[j]) is Pack,
        decreases defs@.len(),
    {
        let ghost d0 = defs@;
        let ghost root0 = root;
        let st = take_first(&mut defs);
        assert(st == defs0[c]);
        proof {
            assert(defs@ =~= defs0.skip(c + 1));
        }
        assert(statement_ok(d0[0]));
        assert forall|j: int| 0 <= j < defs@.len() implies statement_ok(#[trigger] defs@[j]) by {
            assert(defs@[j] == d0[j + 1]);
        }
        let ghost nm = st->Definition_0@;
        let ghost sg = st;
        let ghost m = root;
        assert(defs0.take(c + 1).drop_last() == defs0.take(c));
        assert(defs0.take(c + 1).last() == sg);
        if let DslStatement::Definition(name, t) = st {
            match root.position(name.as_str()) {
                None => {
                    root.insert(t);
                    assert(root.table(nm) is Some);
                },
                Some(p) => {
                    let shell_empty = match &root.tables[p].data {
                        TableData::Sequential(rows) => rows.len() == 0,
                        _ => false,
                    } && has_name(&copied, &chars_of(name.as_str())) && !has_name(&referenced, &chars_of(name.as_str()));
                    if !shell_empty {
                        warnings.push(message("Table already defined; block ignored: ", name.as_str()));
                    } else {
                        match &t.data {
                            TableData::RawLines(lines) => {
                                if lines.len() == 0 {
                                } else if root.tables[p].headers.len() == 0 {
                                    warnings.push(message("Copied table has no structure: ", name.as_str()));
                                } else {
                                    let rows = rows_from_lines(&root.tables[p], lines);
                                    let ghost before_remove = root.tables@;
                                    proof {
                                        lemma_table_pos(before_remove, nm);
                                    }
                                    let mut shell = root.remove_at(p);
                                    fill_table(&mut shell, rows);
                                    let ghost after_remove = root.tables@;
                                    let ghost mid = root;
                                    root.insert(shell);
                                    proof {
                                        assert forall|x: Seq<char>| x != nm implies #[trigger] root.table(x) == m.table(x) by {
                                            lemma_remove_same(m, mid, p as int, x);
                                        }
                                    }
                                    proof {
                                        assert forall|k: int| 0 <= k < c implies root.table(#[trigger] defs0[k]->Definition_0@) is Some by {
                                            let kn = defs0[k]->Definition_0@;
                                            if kn != nm {
                                                lemma_table_pos(before_remove, kn);
                                                assert(table_pos(before_remove, kn) >= 0);
                                                lemma_remove_keeps(before_remove, p as int, kn);
                                                assert(table_pos(after_remove, kn) >= 0);
                                            }
                                        }
                                    }
                                }
                            },
                            _ => {
                                root.insert(t);
                            },
                        }
                    }
                },
            }
        }
        assert(step(2, m, sg, srcs, shv, root));
        proof {
            lemma_trace_push(2, tr2, defs0.take(c), sg, srcs, shv, root);
            assert(defs0.take(c).push(sg) == defs0.take(c + 1));
            tr2 = tr2.push(root);
        }
        proof {
            assert(root.table(nm) is Some || root0.table(nm) is Some);
            c = c + 1;
        }
    }
    let ghost ops0 = ops@;
    let ghost mut tr3: Seq<DslRoot> = seq![root];
    let mut k: usize = 0;
    assert(ops0.take(0) == Seq::<DslStatement>::empty());
    while k < ops.len()
        invariant
            k <= ops@.len(),
            root.wf(),
            ops@ == ops0,
            root.keys_consistent(),
            srcs == sources@,
            ops0 == filter_kind(orig, 3),
            forall|j: int| 0 <= j < ops0.len() ==> of_kind(#[trigger] ops0[j], 3),
            trace_ok(0, tr0, filter_kind(orig, 0), srcs, shv),
            trace_ok(1, tr1, filter_kind(orig, 1), srcs, shv),
            trace_ok(2, tr2, filter_kind(orig, 2), srcs, shv),
            tr0[0].tables@.len() == 0,
            tr1[0] == tr0.last(),
            tr2[0] == tr1.last(),
            tr3[0] == tr2.last(),
            trace_ok(3, tr3, ops0.take(k as int), srcs, shv),
            shv == shells_of(orig, srcs),
            tr3.last() == root,
            forall|k: int| 0 <= k < defs0.len() ==> root.table(#[trigger] defs0[k]->Definition_0@) is Some,
            forall|j: int| 0 <= j < defs0.len() ==> (#[trigger] defs0[j]) is Definition,
            def_names(defs0) == def_names(orig),
            pack_lists(packs@) == pack_lists(orig),
            forall|j: int| 0 <= j < packs@.len() ==> (#[trigger] packs@[j]) is Pack,
        decreases ops@.len() - k,
    {
        let ghost rb = root;
        match &ops[k] {
            DslStatement::Update { path, value_str } => {
                match execute_update(&mut root, path.as_str(), value_str.as_str()) {
                    Ok(()) => {},
                    Err(e) => {
                        warnings.push(e);
                    },
                }
            },
            DslStatement::Add { table_name } => {
                match execute_add(&mut root, table_name.as_str()) {
                    Ok(()) => {},
                    Err(e) => {
                        warnings.push(e);
                    },
                }
            },
            _ => {},
        }
        proof {
            assert forall|m: int| 0 <= m < defs0.len() implies root.table(#[trigger] defs0[m]->Definition_0@) is Some by {
                lemma_table_pos_names(root.tables@, rb.tables@, defs0[m]->Definition_0@);
                lemma_table_pos(rb.tables@, defs0[m]->Definition_0@);
            }
            assert(step(3, rb, ops0[k as int], srcs, shv, root));
            lemma_trace_push(3, tr3, ops0.take(k as int), ops0[k as int], srcs, shv, root);
            assert(ops0.take(k as int).push(ops0[k as int]) == ops0.take(k + 1));
            tr3 = tr3.push(root);
        }
        k = k + 1;
    }
    assert(ops0.take(ops0.len() as int) == ops0);
    proof {
        lemma_all_defs(defs0);
        lemma_all_packs(packs@);
    }
    let mut outputs: Vec<String> = Vec::new();
    let mut k: usize = 0;
    while k < packs.len()
        invariant
            k <= packs@.len(),
            forall|j: int| 0 <= j < packs@.len() ==> (#[trigger] packs@[j]) is Pack,
            pack_lists(packs@).len() == packs@.len(),
            forall|m: int| 0 <= m < packs@.len() ==> #[trigger] pack_lists(packs@)[m] == packs@[m]->table_names@,
            strings_view(outputs@) == pack_outputs(root, pack_lists(packs@).take(k as int)),
        decreases packs@.len() - k,
    {
        let ghost pl = pack_lists(packs@);
        assert(pl.take(k + 1).drop_last() == pl.take(k as int));
        assert(pl.take(k + 1).last() == packs@[k as int]->table_names@);
        if let DslStatement::Pack { table_names } = &packs[k] {
            match execute_pack(&root, table_names.as_slice()) {
                Ok(text) => {
                    let ghost o0 = outputs@;
                    outputs.push(text);
                    assert(strings_view(outputs@) =~= strings_view(o0).push(text@));
                },
                Err(e) => {
                    warnings.push(e);
                },
            }
        }
        k = k + 1;
    }
    assert(pack_lists(packs@).take(packs@.len() as int) == pack_lists(packs@));
    let b = Build { root, packs: outputs, warnings };
    assert(trace_ok(0, tr0, filter_kind(orig, 0), srcs, shv) && trace_ok(1, tr1, filter_kind(orig, 1), srcs, shv)
        && trace_ok(2, tr2, filter_kind(orig, 2), srcs, shv) && trace_ok(3, tr3, filter_kind(orig, 3), srcs, shv)
        && tr0[0].tables@.len() == 0 && tr1[0] == tr0.last() && tr2[0] == tr1.last() && tr3[0] == tr2.last()
        && tr3.last() == b.root);
    b
}

/// Parses a document and builds its root.
pub fn load_document(input: &str, sources: &Vec<(String, String)>) -> (r: Result<Build, String>)
    ensures
        r is Ok <==> !some_fails(scan(lines_of(input@))),
        r matches Ok(b) ==> exists|sts: Seq<DslStatement>|
            #[trigger] matches_shapes(sts, scan(lines_of(input@))) && built(sts, sources@, b),
{
    match parse_dsl_input(input, None) {
        Ok(sts) => {
            let ghost sv = sts@;
            let b = build_root(sts, sources);
            assert(matches_shapes(sv, scan(lines_of(input@))) && built(sv, sources@, b));
            Ok(b)
        },
        Err(e) => Err(e),
    }
}

} // verus!
