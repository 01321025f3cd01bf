//! Laws of the library: what the value parser gives on key inputs under
//! every type hint, and what the serializer's output reads back as.
use vstd::prelude::*;
use crate::structs::ValueModel;
use crate::parser::{parse_value, kw_string, kw_null, hint_is, dc_pos, tuple_elems, parse_values, split_top, split_run, unquote};
use crate::text::{trim, trim_start, trim_end, is_ws, eq_ignore_case, parse_int, digits_value, all_digits, unsigned_part, nat_dec, int_dec, digit_char, is_digit, fold_ascii};
use crate::parser::{kw_true, kw_false, is_tuple_text, is_single_quoted};
use crate::query::{ser, is_special_char, needs_quotes, join_sep, row_line, cells, cell, header_text, header_texts_of, header_line_text};
use crate::structs::{Row, HeaderField, row_fits, row_get, key_pos, lemma_key_pos, opt_view};
use crate::parser::{stray_close, balanced, field_text, data_line_fits, slash_run, slash_parts, header_name, header_type, header_texts, header_line_ok, is_header_text, char_pos};
use crate::structs::{pk_pos, is_discipline, Table, header_is_discipline, index_kind, kw_sindex};
use crate::parser::{Shape, DslStatement, stmt_of, block_ok, nonblank, comment_from, has_header, fitting_lines, row_of, headers_of, nl_run, lines_of, scan, scan_run, line_step, flush, starts, kw_update_prefix, kw_pack_prefix, is_copy_line, is_ref_line, words, words_run, matches_shapes, some_fails, shape_ok};
use crate::query::{table_text, rows_text, rstrip_nl, pack_rows};

verus! {

/// Empty field text reads as the empty string, whatever the hint.
pub proof fn law_empty_text(hint: Option<Seq<char>>)
    ensures
        parse_value(Seq::empty(), hint) == ValueModel::Str(Seq::empty()),
{
    assert(trim_start(Seq::<char>::empty()) == Seq::<char>::empty());
    assert(trim_end(Seq::<char>::empty()) == Seq::<char>::empty());
}

/// The word `null` reads as `Null`, except under the `string` hint, where
/// it is the text `null`.
pub proof fn law_null_word(hint: Option<Seq<char>>)
    ensures
        !hint_is(hint, kw_string()) ==> parse_value(kw_null(), hint) == ValueModel::Null,
        hint_is(hint, kw_string()) ==> parse_value(kw_null(), hint) == ValueModel::Str(kw_null()),
{
    let t = kw_null();
    assert(trim_start(t) == t);
    assert(trim_end(t) == t);
    assert(eq_ignore_case(t, kw_null()));
}

pub open spec fn text_42() -> Seq<char> {
    seq!['4', '2']
}

/// `42` reads as the integer 42 under every hint but `string`, which keeps
/// it as text.
pub proof fn law_integer_text(hint: Option<Seq<char>>)
    ensures
        !hint_is(hint, kw_string()) ==> parse_value(text_42(), hint) == ValueModel::Int(42),
        hint_is(hint, kw_string()) ==> parse_value(text_42(), hint) == ValueModel::Str(text_42()),
{
    let t = text_42();
    assert(trim_start(t) == t);
    assert(trim_end(t) == t);
    assert(unsigned_part(t) == t);
    assert(all_digits(t));
    assert(t.drop_last() == seq!['4']);
    assert(t.drop_last().drop_last() == Seq::<char>::empty());
    assert(('4' as u32) == 52 && ('2' as u32) == 50);
    assert(digits_value(Seq::<char>::empty()) == 0);
    assert(digits_value(seq!['4']) == 4) by {
        assert(seq!['4'].drop_last() == Seq::<char>::empty());
        assert(seq!['4'].last() == '4');
    }
    assert(t.last() == '2');
    assert(digits_value(t) == 42);
    assert(parse_int(t) == Some(42int));
    assert(dc_pos(t.drop_last()) == -1);
    assert(dc_pos(t) == -1);
    assert(!eq_ignore_case(t, kw_null()));
}

pub open spec fn text_quoted_ab() -> Seq<char> {
    seq!['"', 'a', ',', 'b', '"']
}

/// `"a,b"` reads as the text `a,b` under every hint but `string`, which
/// keeps the quotes.
pub proof fn law_quoted_text(hint: Option<Seq<char>>)
    ensures
        !hint_is(hint, kw_string()) ==> parse_value(text_quoted_ab(), hint) == ValueModel::Str(seq!['a', ',', 'b']),
        hint_is(hint, kw_string()) ==> parse_value(text_quoted_ab(), hint) == ValueModel::Str(text_quoted_ab()),
{
    let t = text_quoted_ab();
    assert(trim_start(t) == t);
    assert(trim_end(t) == t);
    assert(!all_digits(unsigned_part(t))) by {
        assert(unsigned_part(t)[0] == '"');
    }
    assert(parse_int(t) is None);
    assert(dc_pos(t) == -1) by {
        assert(t.drop_last() == seq!['"', 'a', ',', 'b']);
        assert(t.drop_last().drop_last() == seq!['"', 'a', ',']);
        assert(t.drop_last().drop_last().drop_last() == seq!['"', 'a']);
        assert(t.drop_last().drop_last().drop_last().drop_last() == seq!['"']);
        assert(seq!['"', 'a'].drop_last() == seq!['"']);
        assert(seq!['"', 'a'][0] == '"');
        assert(dc_pos(seq!['"']) == -1);
        assert(dc_pos(seq!['"', 'a']) == -1);
        assert(dc_pos(seq!['"', 'a', ',']) == -1);
        assert(dc_pos(seq!['"', 'a', ',', 'b']) == -1);
    }
    assert(!eq_ignore_case(t, kw_null()));
    assert(t.subrange(1, t.len() - 1) == seq!['a', ',', 'b']);
    assert(unquote(t) == seq!['a', ',', 'b']);
}

proof fn lemma_letter(c: char)
    requires
        97 <= (c as u32) <= 122,
    ensures
        parse_value(seq![c], None) == ValueModel::Str(seq![c]),
{
    let t = seq![c];
    assert(trim_start(t) == t);
    assert(trim_end(t) == t);
    assert(unsigned_part(t) == t);
    assert(!crate::text::is_digit(t[0]));
    assert(!all_digits(t));
}

proof fn lemma_pair_split(x: char, y: char)
    requires
        97 <= (x as u32) <= 122,
        97 <= (y as u32) <= 122,
    ensures
        split_top(seq![x, ',', y]) == seq![seq![x], seq![y]],
{
    let s1 = seq![x];
    let s2 = seq![x, ','];
    let s3 = seq![x, ',', y];
    assert(s1.drop_last() == Seq::<char>::empty());
    assert(s2.drop_last() == s1);
    assert(s3.drop_last() == s2);
    assert(trim_start(s1) == s1);
    assert(trim_end(s1) == s1);
    assert(split_run(Seq::<char>::empty()) == (Seq::<Seq<char>>::empty(), Seq::<char>::empty(), false, 0nat));
    assert(Seq::<char>::empty().push(x) == s1);
    assert(Seq::<Seq<char>>::empty().push(s1) == seq![s1]);
    assert(Seq::<char>::empty().push(y) == seq![y]);
    assert(split_run(s1) == (Seq::<Seq<char>>::empty(), s1, false, 0nat));
    assert(split_run(s2) == (seq![s1], Seq::<char>::empty(), false, 0nat));
    assert(split_run(s3) == (seq![s1], seq![y], false, 0nat));
    assert(trim_start(seq![y]) == seq![y]);
    assert(trim_end(seq![y]) == seq![y]);
}

proof fn lemma_pair_tuple(x: char, y: char)
    requires
        97 <= (x as u32) <= 122,
        97 <= (y as u32) <= 122,
    ensures
        parse_value(seq!['(', x, ',', y, ')'], None) == ValueModel::Tuple(
            seq![ValueModel::Str(seq![x]), ValueModel::Str(seq![y])],
        ),
{
    let t = seq!['(', x, ',', y, ')'];
    assert(trim_start(t) == t);
    assert(trim_end(t) == t);
    assert(t.subrange(1, t.len() - 1) == seq![x, ',', y]);
    lemma_pair_split(x, y);
    let es = tuple_elems(t);
    assert(es == seq![seq![x], seq![y]]);
    lemma_letter(x);
    lemma_letter(y);
    assert(es.drop_last() == seq![seq![x]]);
    assert(es.drop_last().drop_last() == Seq::<Seq<char>>::empty());
    assert(parse_values(Seq::<Seq<char>>::empty(), 5) == Seq::<ValueModel>::empty());
    assert(Seq::<ValueModel>::empty().push(ValueModel::Str(seq![x])) == seq![ValueModel::Str(seq![x])]);
    assert(seq![ValueModel::Str(seq![x])].push(ValueModel::Str(seq![y])) == seq![ValueModel::Str(seq![x]), ValueModel::Str(seq![y])]);
    assert(parse_values(es.drop_last(), 5) == seq![ValueModel::Str(seq![x])]);
    assert(parse_values(es, 5) == seq![ValueModel::Str(seq![x]), ValueModel::Str(seq![y])]);
}

pub open spec fn text_nested() -> Seq<char> {
    seq!['(', 'a', ',', '(', 'b', ',', 'c', ')', ')']
}

/// `(a,(b,c))` reads as a tuple of `a` and the tuple of `b` and `c`,
/// whatever the hint.
pub proof fn law_nested_tuple(hint: Option<Seq<char>>)
    ensures
        parse_value(text_nested(), hint) == ValueModel::Tuple(
            seq![
                ValueModel::Str(seq!['a']),
                ValueModel::Tuple(seq![ValueModel::Str(seq!['b']), ValueModel::Str(seq!['c'])]),
            ],
        ),
{
    let t = text_nested();
    let inner = seq!['a', ',', '(', 'b', ',', 'c', ')'];
    let e2 = seq!['(', 'b', ',', 'c', ')'];
    assert(trim_start(t) == t);
    assert(trim_end(t) == t);
    assert(t.subrange(1, t.len() - 1) == inner);
    let w1 = seq!['a'];
    let w2 = seq!['a', ','];
    let w3 = seq!['a', ',', '('];
    let w4 = seq!['a', ',', '(', 'b'];
    let w5 = seq!['a', ',', '(', 'b', ','];
    let w6 = seq!['a', ',', '(', 'b', ',', 'c'];
    assert(w1.drop_last() == Seq::<char>::empty());
    assert(w2.drop_last() == w1);
    assert(w3.drop_last() == w2);
    assert(w4.drop_last() == w3);
    assert(w5.drop_last() == w4);
    assert(w6.drop_last() == w5);
    assert(inner.drop_last() == w6);
    assert(trim_start(w1) == w1);
    assert(trim_end(w1) == w1);
    assert(split_run(Seq::<char>::empty()) == (Seq::<Seq<char>>::empty(), Seq::<char>::empty(), false, 0nat));
    assert(Seq::<char>::empty().push('a') == w1);
    assert(Seq::<Seq<char>>::empty().push(w1) == seq![w1]);
    assert(Seq::<char>::empty().push('(') == seq!['(']);
    assert(seq!['('].push('b') == seq!['(', 'b']);
    assert(seq!['(', 'b'].push(',') == seq!['(', 'b', ',']);
    assert(seq!['(', 'b', ','].push('c') == seq!['(', 'b', ',', 'c']);
    assert(seq!['(', 'b', ',', 'c'].push(')') == e2);
    assert(split_run(w1) == (Seq::<Seq<char>>::empty(), w1, false, 0nat));
    assert(split_run(w2) == (seq![w1], Seq::<char>::empty(), false, 0nat));
    assert(split_run(w3) == (seq![w1], seq!['('], false, 1nat));
    assert(split_run(w4) == (seq![w1], seq!['(', 'b'], false, 1nat));
    assert(split_run(w5) == (seq![w1], seq!['(', 'b', ','], false, 1nat));
    assert(split_run(w6) == (seq![w1], seq!['(', 'b', ',', 'c'], false, 1nat));
    assert(split_run(inner) == (seq![w1], e2, false, 0nat));
    assert(trim_start(e2) == e2);
    assert(trim_end(e2) == e2);
    let es = tuple_elems(t);
    assert(es == seq![w1, e2]);
    lemma_letter('a');
    lemma_pair_tuple('b', 'c');
    assert(es.drop_last() == seq![w1]);
    assert(es.drop_last().drop_last() == Seq::<Seq<char>>::empty());
    assert(parse_values(Seq::<Seq<char>>::empty(), 9) == Seq::<ValueModel>::empty());
    assert(Seq::<ValueModel>::empty().push(ValueModel::Str(w1)) == seq![ValueModel::Str(w1)]);
    assert(parse_values(es.drop_last(), 9) == seq![ValueModel::Str(w1)]);
    let bc = ValueModel::Tuple(seq![ValueModel::Str(seq!['b']), ValueModel::Str(seq!['c'])]);
    assert(seq![ValueModel::Str(w1)].push(bc) == seq![ValueModel::Str(w1), bc]);
}

proof fn lemma_nat_dec(n: nat)
    ensures
        nat_dec(n).len() >= 1,
        all_digits(nat_dec(n)),
        digits_value(nat_dec(n)) == n,
    decreases n,
{
    if n < 10 {
        let t = nat_dec(n);
        assert(t.drop_last() == Seq::<char>::empty());
        assert(digits_value(Seq::<char>::empty()) == 0);
        assert(('0' as u32) == 48 && ('1' as u32) == 49 && ('2' as u32) == 50 && ('3' as u32) == 51 && ('4' as u32) == 52);
        assert(('5' as u32) == 53 && ('6' as u32) == 54 && ('7' as u32) == 55 && ('8' as u32) == 56 && ('9' as u32) == 57);
        assert(digit_char(n as int) as u32 - 48 == n);
    } else {
        lemma_nat_dec(n / 10);
        let d = digit_char((n % 10) as int);
        assert(('0' as u32) == 48 && ('1' as u32) == 49 && ('2' as u32) == 50 && ('3' as u32) == 51 && ('4' as u32) == 52);
        assert(('5' as u32) == 53 && ('6' as u32) == 54 && ('7' as u32) == 55 && ('8' as u32) == 56 && ('9' as u32) == 57);
        assert(d as u32 - 48 == n % 10);
        let t = nat_dec(n);
        assert(t.drop_last() == nat_dec(n / 10));
        assert(t.last() == d);
        assert(all_digits(t)) by {
            assert forall|i: int| 0 <= i < t.len() implies is_digit(#[trigger] t[i]) by {
                if i < t.len() - 1 {
                    assert(t[i] == nat_dec(n / 10)[i]);
                }
            }
        }
        assert(n == (n / 10) * 10 + n % 10);
    }
}

/// The decimal text of an integer reads back as that integer.
pub proof fn lemma_int_text(i: int)
    requires
        i64::MIN <= i <= i64::MAX,
    ensures
        parse_int(int_dec(i)) == Some(i),
        int_dec(i).len() >= 1,
        forall|k: int|
            0 <= k < int_dec(i).len() ==> !is_ws(#[trigger] int_dec(i)[k]) && !is_special_char(int_dec(i)[k])
                && int_dec(i)[k] != ':' && int_dec(i)[k] != '"',
        int_dec(i)[0] != '(' && int_dec(i)[0] != '\'' && int_dec(i)[0] != '"',
{
    if i < 0 {
        let m = (-i) as nat;
        lemma_nat_dec(m);
        let t = int_dec(i);
        assert(t == seq!['-'] + nat_dec(m));
        assert(t.drop_first() == nat_dec(m));
        assert(unsigned_part(t) == nat_dec(m));
        assert forall|k: int| 0 <= k < t.len() implies !is_ws(#[trigger] t[k]) && !is_special_char(t[k]) && t[k] != ':' && t[k] != '"' by {
            if k > 0 {
                assert(t[k] == nat_dec(m)[k - 1]);
                assert(is_digit(nat_dec(m)[k - 1]));
            }
        }
    } else {
        let m = i as nat;
        lemma_nat_dec(m);
        let t = int_dec(i);
        assert(is_digit(t[0]));
        assert(unsigned_part(t) == t);
        assert forall|k: int| 0 <= k < t.len() implies !is_ws(#[trigger] t[k]) && !is_special_char(t[k]) && t[k] != ':' && t[k] != '"' by {
            assert(is_digit(t[k]));
        }
    }
}

proof fn lemma_trim_plain(t: Seq<char>)
    requires
        t.len() >= 1,
        !is_ws(t[0]),
        !is_ws(t.last()),
    ensures
        trim(t) == t,
{
}

/// Text that pack writes bare and that reads back unchanged: non-empty,
/// without whitespace, quotes of either kind, commas, parentheses or `::`,
/// and not a number, a boolean word or `null`.
pub open spec fn plain_text(s: Seq<char>) -> bool {
    &&& s.len() > 0
    &&& forall|i: int| 0 <= i < s.len() ==> !is_ws(#[trigger] s[i]) && !is_special_char(s[i]) && s[i] != '"'
    &&& dc_pos(s) < 0
    &&& parse_int(s) is None
    &&& !eq_ignore_case(s, kw_null())
    &&& !eq_ignore_case(s, kw_true())
    &&& !eq_ignore_case(s, kw_false())
}

/// A value whose canonical text reads back as itself: an integer (under
/// any hint but `string`) or plain text (under any hint).
pub open spec fn round_trips(v: ValueModel, hint: Option<Seq<char>>) -> bool {
    match v {
        ValueModel::Int(i) => i64::MIN <= i <= i64::MAX && !hint_is(hint, kw_string()),
        ValueModel::Str(s) => plain_text(s),
        _ => false,
    }
}

/// Reading back what pack writes for a value gives the value again.
pub proof fn law_value_round_trip(v: ValueModel, hint: Option<Seq<char>>)
    requires
        round_trips(v, hint),
    ensures
        parse_value(ser(v), hint) == v,
{
    match v {
        ValueModel::Int(i) => {
            lemma_int_text(i);
            let t = int_dec(i);
            assert(ser(v) == t);
            lemma_trim_plain(t);
            assert(!eq_ignore_case(t, kw_null())) by {
                if t.len() == 4 {
                    assert(fold_ascii(t[0]) != fold_ascii('n'));
                }
            }
            assert(!is_tuple_text(t));
            assert(dc_pos(t) < 0) by {
                lemma_no_colon_dc(t);
            }
        },
        ValueModel::Str(s) => {
            assert(!needs_quotes(s));
            assert(ser(v) == s);
            lemma_trim_plain(s);
            assert(!is_tuple_text(s));
            assert(!is_single_quoted(s));
            assert(unquote_id(s));
        },
        _ => {},
    }
}

pub open spec fn unquote_id(s: Seq<char>) -> bool {
    crate::parser::unquote(s) == s
}

proof fn lemma_no_colon_dc(t: Seq<char>)
    requires
        forall|k: int| 0 <= k < t.len() ==> #[trigger] t[k] != ':',
    ensures
        dc_pos(t) < 0,
    decreases t.len(),
{
    if t.len() >= 2 {
        assert forall|k: int| 0 <= k < t.drop_last().len() implies #[trigger] t.drop_last()[k] != ':' by {
            assert(t.drop_last()[k] == t[k]);
        }
        lemma_no_colon_dc(t.drop_last());
        assert(t[t.len() - 2] != ':');
    }
}

/// A cell that the field splitter passes through whole.
pub open spec fn bare_cell(c: Seq<char>) -> bool {
    &&& c.len() > 0
    &&& forall|k: int| 0 <= k < c.len() ==> !is_ws(#[trigger] c[k]) && !is_special_char(c[k]) && c[k] != '"'
}

proof fn lemma_split_piece(a: Seq<char>, p: Seq<char>)
    requires
        forall|k: int| 0 <= k < p.len() ==> !is_special_char(#[trigger] p[k]) && p[k] != '"',
    ensures
        split_run(a + p) == (split_run(a).0, split_run(a).1 + p, split_run(a).2, split_run(a).3),
    decreases p.len(),
{
    if p.len() == 0 {
        assert(a + p == a);
        assert(split_run(a).1 + p == split_run(a).1);
    } else {
        assert forall|k: int| 0 <= k < p.drop_last().len() implies !is_special_char(#[trigger] p.drop_last()[k]) && p.drop_last()[k] != '"' by {
            assert(p.drop_last()[k] == p[k]);
        }
        lemma_split_piece(a, p.drop_last());
        assert((a + p).drop_last() == a + p.drop_last());
        assert((a + p).last() == p.last());
        assert(!is_special_char(p[p.len() - 1]));
        assert((split_run(a).1 + p.drop_last()).push(p.last()) == split_run(a).1 + p);
    }
}

proof fn lemma_split_cells(cs: Seq<Seq<char>>)
    requires
        cs.len() >= 1,
        forall|j: int| 0 <= j < cs.len() ==> bare_cell(#[trigger] cs[j]),
    ensures
        split_run(join_sep(cs, ',')) == (cs.drop_last(), cs.last(), false, 0nat),
    decreases cs.len(),
{
    let e = Seq::<char>::empty();
    assert(split_run(e) == (Seq::<Seq<char>>::empty(), e, false, 0nat));
    if cs.len() == 1 {
        assert(bare_cell(cs[0]));
        lemma_split_piece(e, cs[0]);
        assert(e + cs[0] == cs[0]);
        assert(e + cs[0] == cs[0]);
        assert(cs.drop_last() == Seq::<Seq<char>>::empty());
    } else {
        let front = cs.drop_last();
        assert forall|j: int| 0 <= j < front.len() implies bare_cell(#[trigger] front[j]) by {
            assert(front[j] == cs[j]);
        }
        lemma_split_cells(front);
        let a = join_sep(front, ',');
        let c = front.last();
        assert(bare_cell(c)) by {
            assert(c == cs[cs.len() - 2]);
        }
        assert(trim_start(c) == c);
        assert(trim_end(c) == c);
        let ac = a + seq![','];
        assert(ac.drop_last() == a);
        assert(ac.last() == ',');
        assert(split_run(ac) == (front.drop_last().push(c), e, false, 0nat));
        assert(front.drop_last().push(c) == front);
        assert(bare_cell(cs.last()));
        lemma_split_piece(ac, cs.last());
        assert(join_sep(cs, ',') == ac + cs.last());
        assert(e + cs.last() == cs.last());
    }
}

proof fn lemma_cells(r: Row, hs: Seq<HeaderField>)
    ensures
        cells(r, hs).len() == hs.len(),
        forall|i: int| 0 <= i < hs.len() ==> #[trigger] cells(r, hs)[i] == cell(r, hs[i]),
    decreases hs.len(),
{
    if hs.len() > 0 {
        lemma_cells(r, hs.drop_last());
        assert forall|i: int| 0 <= i < hs.len() - 1 implies hs[i] == hs.drop_last()[i] by {}
    }
}

proof fn lemma_join_no_char(ps: Seq<Seq<char>>, sep: char, c: char)
    requires
        sep != c,
        forall|j: int| 0 <= j < ps.len() ==> forall|k: int| 0 <= k < (#[trigger] ps[j]).len() ==> ps[j][k] != c,
    ensures
        forall|k: int| 0 <= k < join_sep(ps, sep).len() ==> #[trigger] join_sep(ps, sep)[k] != c,
    decreases ps.len(),
{
    if ps.len() > 1 {
        let front = ps.drop_last();
        assert forall|j: int| 0 <= j < front.len() implies forall|k: int| 0 <= k < (#[trigger] front[j]).len() ==> front[j][k] != c by {
            assert(front[j] == ps[j]);
        }
        lemma_join_no_char(front, sep, c);
        let a = join_sep(front, sep);
        let l = ps.last();
        assert(ps.last() == ps[ps.len() - 1]);
        assert forall|k: int| 0 <= k < join_sep(ps, sep).len() implies #[trigger] join_sep(ps, sep)[k] != c by {
            if k < a.len() {
                assert(join_sep(ps, sep)[k] == a[k]);
            } else if k == a.len() {
                assert(join_sep(ps, sep)[k] == sep);
            } else {
                assert(join_sep(ps, sep)[k] == l[k - a.len() - 1]);
            }
        }
    } else if ps.len() == 1 {
        assert(join_sep(ps, sep) == ps[0]);
    }
}

proof fn lemma_no_stray(s: Seq<char>)
    requires
        forall|k: int| 0 <= k < s.len() ==> #[trigger] s[k] != ')',
    ensures
        !stray_close(s),
    decreases s.len(),
{
    if s.len() > 0 {
        assert forall|k: int| 0 <= k < s.drop_last().len() implies #[trigger] s.drop_last()[k] != ')' by {
            assert(s.drop_last()[k] == s[k]);
        }
        lemma_no_stray(s.drop_last());
        assert(s[s.len() - 1] != ')');
    }
}

/// A header list with no name twice.
pub open spec fn names_unique(hs: Seq<HeaderField>) -> bool {
    forall|i: int, j: int| 0 <= i < j < hs.len() ==> (#[trigger] hs[i]).name@ != (#[trigger] hs[j]).name@
}

/// Reading back the data line that pack writes for a row gives, column by
/// column, the row's values again, when every value round-trips under its
/// column's type.
pub proof fn law_row_round_trip(r: Row, hs: Seq<HeaderField>)
    requires
        hs.len() > 0,
        row_fits(r, hs),
        names_unique(hs),
        forall|i: int| 0 <= i < hs.len() ==> round_trips((#[trigger] r.fields@[i]).1@, opt_view(hs[i].type_info)),
    ensures
        data_line_fits(row_line(r, hs), hs),
        forall|i: int|
            0 <= i < hs.len() ==> parse_value(field_text(split_top(row_line(r, hs)), i), opt_view(hs[i].type_info))
                == (#[trigger] r.fields@[i]).1@,
{
    lemma_cells(r, hs);
    let cs = cells(r, hs);
    assert forall|i: int| 0 <= i < hs.len() implies #[trigger] cs[i] == ser(r.fields@[i].1@) && bare_cell(cs[i]) by {
        lemma_key_pos(r.fields@, hs[i].name@);
        let kp = key_pos(r.fields@, hs[i].name@);
        assert(r.fields@[i].0@ == hs[i].name@);
        if kp != i {
            assert(r.fields@[kp].0@ == hs[kp].name@);
        }
        assert(row_get(r, hs[i].name@) == Some(r.fields@[i].1));
        assert(round_trips(r.fields@[i].1@, opt_view(hs[i].type_info)));
        match r.fields@[i].1@ {
            ValueModel::Int(n) => {
                lemma_int_text(n);
            },
            ValueModel::Str(x) => {
                assert(!needs_quotes(x));
            },
            _ => {},
        }
    }
    lemma_split_cells(cs);
    lemma_join_no_char(cs, ',', ')');
    lemma_no_stray(row_line(r, hs));
    assert(balanced(row_line(r, hs)));
    assert(split_top(row_line(r, hs)) == cs.drop_last().push(trim(cs.last())));
    assert(bare_cell(cs.last())) by {
        assert(cs.last() == cs[cs.len() - 1]);
    }
    assert(trim_start(cs.last()) == cs.last());
    assert(trim_end(cs.last()) == cs.last());
    assert(cs.drop_last().push(cs.last()) == cs);
    assert forall|i: int| 0 <= i < hs.len() implies parse_value(field_text(split_top(row_line(r, hs)), i), opt_view(hs[i].type_info))
        == (#[trigger] r.fields@[i]).1@ by {
        assert(field_text(cs, i) == cs[i]);
        law_value_round_trip(r.fields@[i].1@, opt_view(hs[i].type_info));
    }
}

/// A name or type that a header line carries unchanged: non-empty, with no
/// whitespace, `/` or `:`.
pub open spec fn plain_word(w: Seq<char>) -> bool {
    w.len() > 0 && forall|k: int| 0 <= k < w.len() ==> !is_ws(#[trigger] w[k]) && w[k] != '/' && w[k] != ':'
}

/// Headers that pack writes and the header parser reads back: plain names
/// and types, no name twice, and the key flag on the first header typed
/// with an index discipline alone.
pub open spec fn plain_headers(hs: Seq<HeaderField>) -> bool {
    &&& hs.len() > 0
    &&& names_unique(hs)
    &&& forall|i: int| 0 <= i < hs.len() ==> plain_word((#[trigger] hs[i]).name@)
    &&& forall|i: int| 0 <= i < hs.len() ==> ((#[trigger] hs[i]).type_info matches Some(t) ==> plain_word(t@))
    &&& forall|i: int| 0 <= i < hs.len() ==> (#[trigger] hs[i]).is_primary_key == (i == pk_pos(hs))
}

proof fn lemma_slash_piece(a: Seq<char>, p: Seq<char>)
    requires
        forall|k: int| 0 <= k < p.len() ==> #[trigger] p[k] != '/',
    ensures
        slash_run(a + p) == (slash_run(a).0, slash_run(a).1 + p),
    decreases p.len(),
{
    if p.len() == 0 {
        assert(a + p == a);
        assert(slash_run(a).1 + p == slash_run(a).1);
    } else {
        assert forall|k: int| 0 <= k < p.drop_last().len() implies #[trigger] p.drop_last()[k] != '/' by {
            assert(p.drop_last()[k] == p[k]);
        }
        lemma_slash_piece(a, p.drop_last());
        assert((a + p).drop_last() == a + p.drop_last());
        assert((a + p).last() == p.last());
        assert(p[p.len() - 1] != '/');
        assert((slash_run(a).1 + p.drop_last()).push(p.last()) == slash_run(a).1 + p);
    }
}

proof fn lemma_slash_join(ps: Seq<Seq<char>>)
    requires
        ps.len() >= 1,
        forall|j: int| 0 <= j < ps.len() ==> (#[trigger] ps[j]).len() > 0 && forall|k: int| 0 <= k < ps[j].len() ==> ps[j][k] != '/',
    ensures
        slash_run(join_sep(ps, '/')) == (ps.drop_last(), ps.last()),
    decreases ps.len(),
{
    let e = Seq::<char>::empty();
    assert(slash_run(e) == (Seq::<Seq<char>>::empty(), e));
    if ps.len() == 1 {
        assert(ps[0].len() > 0);
        lemma_slash_piece(e, ps[0]);
        assert(e + ps[0] == ps[0]);
        assert(ps.drop_last() == Seq::<Seq<char>>::empty());
    } else {
        let front = ps.drop_last();
        assert forall|j: int| 0 <= j < front.len() implies (#[trigger] front[j]).len() > 0 && forall|k: int| 0 <= k < front[j].len() ==> front[j][k] != '/' by {
            assert(front[j] == ps[j]);
        }
        lemma_slash_join(front);
        let a = join_sep(front, '/');
        let c = front.last();
        assert(c.len() > 0) by {
            assert(c == ps[ps.len() - 2]);
        }
        let ac = a + seq!['/'];
        assert(ac.drop_last() == a);
        assert(ac.last() == '/');
        assert(slash_run(ac) == (front.drop_last().push(c), e));
        assert(front.drop_last().push(c) == front);
        assert(ps.last() == ps[ps.len() - 1]);
        lemma_slash_piece(ac, ps.last());
        assert(join_sep(ps, '/') == ac + ps.last());
    }
}

proof fn lemma_header_texts_of(hs: Seq<HeaderField>)
    ensures
        header_texts_of(hs).len() == hs.len(),
        forall|i: int| 0 <= i < hs.len() ==> #[trigger] header_texts_of(hs)[i] == header_text(hs[i]),
    decreases hs.len(),
{
    if hs.len() > 0 {
        lemma_header_texts_of(hs.drop_last());
        assert forall|i: int| 0 <= i < hs.len() - 1 implies hs[i] == hs.drop_last()[i] by {}
    }
}

proof fn lemma_no_char(w: Seq<char>, c: char)
    requires
        forall|k: int| 0 <= k < w.len() ==> #[trigger] w[k] != c,
    ensures
        char_pos(w, c) == -1,
    decreases w.len(),
{
    if w.len() > 0 {
        assert forall|k: int| 0 <= k < w.drop_last().len() implies #[trigger] w.drop_last()[k] != c by {
            assert(w.drop_last()[k] == w[k]);
        }
        lemma_no_char(w.drop_last(), c);
    }
}

proof fn lemma_char_pos_concat(w: Seq<char>, rest: Seq<char>, c: char)
    requires
        forall|k: int| 0 <= k < w.len() ==> #[trigger] w[k] != c,
        rest.len() > 0,
        rest[0] == c,
    ensures
        char_pos(w + rest, c) == w.len(),
    decreases rest.len(),
{
    if rest.len() == 1 {
        assert((w + rest).drop_last() == w);
        lemma_no_char(w, c);
    } else {
        assert((w + rest).drop_last() == w + rest.drop_last());
        lemma_char_pos_concat(w, rest.drop_last(), c);
    }
}

proof fn lemma_header_text_reads(h: HeaderField)
    requires
        plain_word(h.name@),
        (h.type_info matches Some(t) ==> plain_word(t@)),
    ensures
        header_name(header_text(h)) == h.name@,
        header_type(header_text(h)) == opt_view(h.type_info),
        forall|k: int| 0 <= k < header_text(h).len() ==> #[trigger] header_text(h)[k] != '/',
        header_text(h).len() > 0,
{
    let n = h.name@;
    assert(trim_start(n) == n);
    assert(trim_end(n) == n);
    match h.type_info {
        None => {
            lemma_no_char(n, ':');
        },
        Some(t) => {
            let tv = t@;
            assert(trim_start(tv) == tv);
            assert(trim_end(tv) == tv);
            let x = header_text(h);
            let sep = if h.is_primary_key && is_discipline(tv) {
                seq![':']
            } else {
                seq![':', ':']
            };
            assert(x == n + (sep + tv));
            lemma_char_pos_concat(n, sep + tv, ':');
            let p = n.len() as int;
            assert(x.take(p) == n);
            if sep.len() == 1 {
                assert(x[p + 1] == tv[0]);
                assert(x.skip(p + 1) == tv);
            } else {
                assert(x[p + 1] == ':');
                assert(x.skip(p + 2) == tv);
            }
            assert forall|k: int| 0 <= k < x.len() implies #[trigger] x[k] != '/' by {
                if k >= p + sep.len() {
                    assert(x[k] == tv[k - p - sep.len()]);
                } else if k < p {
                    assert(x[k] == n[k]);
                }
            }
        },
    }
}

/// The header line that pack writes reads back as the same headers: the
/// same names and types, hence the same primary key.
pub proof fn law_header_round_trip(hs: Seq<HeaderField>)
    requires
        plain_headers(hs),
    ensures
        header_line_ok(header_line_text(hs)),
        header_texts(header_line_text(hs)).len() == hs.len(),
        forall|i: int|
            0 <= i < hs.len() ==> header_name(#[trigger] header_texts(header_line_text(hs))[i]) == hs[i].name@
                && header_type(header_texts(header_line_text(hs))[i]) == opt_view(hs[i].type_info),
{
    lemma_header_texts_of(hs);
    let ts = header_texts_of(hs);
    assert forall|i: int| 0 <= i < hs.len() implies (#[trigger] ts[i]).len() > 0 && (forall|k: int| 0 <= k < ts[i].len() ==> ts[i][k] != '/')
        && header_name(ts[i]) == hs[i].name@ && header_type(ts[i]) == opt_view(hs[i].type_info) by {
        lemma_header_text_reads(hs[i]);
    }
    lemma_slash_join(ts);
    let j = join_sep(ts, '/');
    let l = header_line_text(hs);
    assert(l == seq!['/'] + j + seq!['/']);
    assert(l.subrange(1, l.len() - 1) == j);
    assert(slash_parts(j) == ts.drop_last().push(ts.last()));
    assert(ts.drop_last().push(ts.last()) == ts);
    assert(header_texts(l) == ts);
    assert(l[0] == '/' && l.last() == '/');
    assert forall|a: int, b: int| 0 <= a < b < ts.len() implies header_name(#[trigger] ts[a]) != header_name(#[trigger] ts[b]) by {
        assert(hs[a].name@ != hs[b].name@);
    }
}

/// The data lines pack writes for `rows`.
pub open spec fn row_lines(rows: Seq<Row>, hs: Seq<HeaderField>) -> Seq<Seq<char>> {
    Seq::new(rows.len(), |k: int| row_line(rows[k], hs))
}

/// The lines of the definition block pack writes for a table: the name
/// line, the header line and one data line per row.
pub open spec fn pack_block_lines(t: Table, rows: Seq<Row>) -> Seq<Seq<char>> {
    seq![t.name@ + seq![':'], header_line_text(t.headers@)] + row_lines(rows, t.headers@)
}

/// A sequential table whose block pack writes and the block reader reads
/// back unchanged.
pub open spec fn plain_table(t: Table) -> bool {
    &&& t.data is Sequential
    &&& t.kind() is None || t.kind() == Some(kw_sindex())
    &&& plain_headers(t.headers@)
    &&& plain_word(t.name@)
    &&& forall|k: int| 0 <= k < t.name@.len() ==> #[trigger] t.name@[k] != '#'
    &&& forall|k: int| 0 <= k < t.data->Sequential_0@.len() ==> row_fits(#[trigger] t.data->Sequential_0@[k], t.headers@)
    &&& forall|k: int, i: int|
        0 <= k < t.data->Sequential_0@.len() && 0 <= i < t.headers@.len() ==> round_trips(
            (#[trigger] t.data->Sequential_0@[k].fields@[i]).1@,
            opt_view(t.headers@[i].type_info),
        )
}

proof fn lemma_join_no_ws(ps: Seq<Seq<char>>, sep: char)
    requires
        !is_ws(sep),
        forall|j: int| 0 <= j < ps.len() ==> forall|k: int| 0 <= k < (#[trigger] ps[j]).len() ==> !is_ws(ps[j][k]),
    ensures
        forall|k: int| 0 <= k < join_sep(ps, sep).len() ==> !is_ws(#[trigger] join_sep(ps, sep)[k]),
    decreases ps.len(),
{
    if ps.len() > 1 {
        let front = ps.drop_last();
        assert forall|j: int| 0 <= j < front.len() implies forall|k: int| 0 <= k < (#[trigger] front[j]).len() ==> !is_ws(front[j][k]) by {
            assert(front[j] == ps[j]);
        }
        lemma_join_no_ws(front, sep);
        let a = join_sep(front, sep);
        let l = ps.last();
        assert(ps.last() == ps[ps.len() - 1]);
        assert forall|k: int| 0 <= k < join_sep(ps, sep).len() implies !is_ws(#[trigger] join_sep(ps, sep)[k]) by {
            if k < a.len() {
                assert(join_sep(ps, sep)[k] == a[k]);
            } else if k == a.len() {
                assert(join_sep(ps, sep)[k] == sep);
            } else {
                assert(join_sep(ps, sep)[k] == l[k - a.len() - 1]);
            }
        }
    } else if ps.len() == 1 {
        assert(join_sep(ps, sep) == ps[0]);
    }
}

proof fn lemma_no_ws_trim(x: Seq<char>)
    requires
        x.len() > 0,
        forall|k: int| 0 <= k < x.len() ==> !is_ws(#[trigger] x[k]),
    ensures
        trim(x) == x,
{
    assert(!is_ws(x[0]));
    assert(!is_ws(x[x.len() - 1]));
}

proof fn lemma_nonblank_id(ls: Seq<Seq<char>>)
    requires
        forall|j: int| 0 <= j < ls.len() ==> (#[trigger] ls[j]).len() > 0 && trim(ls[j]) == ls[j],
    ensures
        nonblank(ls) == ls,
    decreases ls.len(),
{
    if ls.len() > 0 {
        assert forall|j: int| 0 <= j < ls.drop_last().len() implies (#[trigger] ls.drop_last()[j]).len() > 0 && trim(ls.drop_last()[j]) == ls.drop_last()[j] by {
            assert(ls.drop_last()[j] == ls[j]);
        }
        lemma_nonblank_id(ls.drop_last());
        assert(ls.last() == ls[ls.len() - 1]);
        assert(ls.drop_last().push(ls.last()) == ls);
    }
}

proof fn lemma_fitting_id(ls: Seq<Seq<char>>, hs: Seq<HeaderField>)
    requires
        forall|j: int| 0 <= j < ls.len() ==> data_line_fits(#[trigger] ls[j], hs),
    ensures
        fitting_lines(ls, hs) == ls,
    decreases ls.len(),
{
    if ls.len() > 0 {
        assert forall|j: int| 0 <= j < ls.drop_last().len() implies data_line_fits(#[trigger] ls.drop_last()[j], hs) by {
            assert(ls.drop_last()[j] == ls[j]);
        }
        lemma_fitting_id(ls.drop_last(), hs);
        assert(ls.last() == ls[ls.len() - 1]);
        assert(ls.drop_last().push(ls.last()) == ls);
    }
}

proof fn lemma_no_comment(x: Seq<char>, i: int)
    requires
        0 <= i <= x.len(),
        forall|k: int| 0 <= k < x.len() ==> #[trigger] x[k] != '#' && x[k] != '/',
    ensures
        comment_from(x, i) == x.len(),
    decreases x.len() - i,
{
    if i < x.len() {
        lemma_no_comment(x, i + 1);
    }
}

proof fn lemma_pk_pos_same(a: Seq<HeaderField>, b: Seq<HeaderField>)
    requires
        a.len() == b.len(),
        forall|i: int| 0 <= i < a.len() ==> opt_view((#[trigger] a[i]).type_info) == opt_view(b[i].type_info),
    ensures
        pk_pos(a) == pk_pos(b),
        index_kind(a) == index_kind(b),
    decreases a.len(),
{
    if a.len() > 0 {
        lemma_pk_pos_same(a.drop_last(), b.drop_last());
        assert(header_is_discipline(a.last()) == header_is_discipline(b.last())) by {
            assert(a.last() == a[a.len() - 1]);
            assert(b.last() == b[b.len() - 1]);
        }
        crate::structs::lemma_pk_pos(a);
        crate::structs::lemma_pk_pos(b);
        if pk_pos(a) >= 0 {
            assert(opt_view(a[pk_pos(a)].type_info) == opt_view(b[pk_pos(a)].type_info));
        }
    }
}

/// `t2`, named `n`, has the name, the header names and types, and the rows
/// of `t`.
pub open spec fn same_table(t: Table, n: String, t2: Table) -> bool {
    &&& n@ == t.name@
    &&& t2.headers@.len() == t.headers@.len()
    &&& forall|i: int|
        0 <= i < t.headers@.len() ==> (#[trigger] t2.headers@[i]).name@ == t.headers@[i].name@ && opt_view(
            t2.headers@[i].type_info,
        ) == opt_view(t.headers@[i].type_info)
    &&& t2.data is Sequential
    &&& t2.data->Sequential_0@.len() == t.data->Sequential_0@.len()
    &&& forall|k: int, i: int|
        0 <= k < t.data->Sequential_0@.len() && 0 <= i < t.headers@.len() ==> (
        #[trigger] t2.data->Sequential_0@[k].fields@[i]).1@ == t.data->Sequential_0@[k].fields@[i].1@
}

/// The definition block that pack writes for a plain sequential table
/// parses, and reads back as a table with the same header names and types
/// and the same rows.
pub proof fn law_block_round_trip(t: Table, n: String, t2: Table)
    requires
        plain_table(t),
    ensures
        block_ok(pack_block_lines(t, t.data->Sequential_0@)),
        stmt_of(Shape::Def(pack_block_lines(t, t.data->Sequential_0@)), DslStatement::Definition(n, t2))
            ==> same_table(t, n, t2),
{
    let hs = t.headers@;
    let rows = t.data->Sequential_0@;
    let ls = pack_block_lines(t, rows);
    let rl = row_lines(rows, hs);
    let name_line = t.name@ + seq![':'];
    let hl = header_line_text(hs);
    // the name line
    assert forall|k: int| 0 <= k < name_line.len() implies !is_ws(#[trigger] name_line[k]) && name_line[k] != '#'
        && name_line[k] != '/' by {
        if k < t.name@.len() {
            assert(name_line[k] == t.name@[k]);
        }
    }
    lemma_no_ws_trim(name_line);
    lemma_no_comment(name_line, 0);
    assert(name_line.take(name_line.len() as int) == name_line);
    assert(name_line.take(name_line.len() - 1) == t.name@);
    lemma_no_ws_trim(t.name@);
    // the header line
    law_header_round_trip(hs);
    lemma_header_texts_of(hs);
    let ts = header_texts_of(hs);
    assert forall|j: int| 0 <= j < ts.len() implies forall|k: int| 0 <= k < (#[trigger] ts[j]).len() ==> !is_ws(ts[j][k]) by {
        let h = hs[j];
        assert(ts[j] == header_text(h));
        assert forall|k: int| 0 <= k < header_text(h).len() implies !is_ws(header_text(h)[k]) by {
            let nm = h.name@;
            if k < nm.len() {
                assert(header_text(h)[k] == nm[k]);
            } else {
                match h.type_info {
                    Some(ty) => {
                        let sep = if h.is_primary_key && is_discipline(ty@) { seq![':'] } else { seq![':', ':'] };
                        assert(header_text(h) == nm + (sep + ty@));
                        if k >= nm.len() + sep.len() {
                            assert(header_text(h)[k] == ty@[k - nm.len() - sep.len()]);
                        }
                    },
                    None => {},
                }
            }
        }
    }
    lemma_join_no_ws(ts, '/');
    assert(hl == seq!['/'] + join_sep(ts, '/') + seq!['/']);
    assert forall|k: int| 0 <= k < hl.len() implies !is_ws(#[trigger] hl[k]) by {
        if k > 0 && k < hl.len() - 1 {
            assert(hl[k] == join_sep(ts, '/')[k - 1]);
        }
    }
    lemma_no_ws_trim(hl);
    // the data lines
    assert forall|k: int| 0 <= k < rows.len() implies (#[trigger] rl[k]).len() > 0 && trim(rl[k]) == rl[k]
        && data_line_fits(rl[k], hs) && (forall|i: int| 0 <= i < hs.len() ==> parse_value(
            field_text(split_top(rl[k]), i),
            opt_view(hs[i].type_info),
        ) == rows[k].fields@[i].1@) by {
        let r = rows[k];
        assert(row_fits(r, hs));
        assert forall|i: int| 0 <= i < hs.len() implies round_trips((#[trigger] r.fields@[i]).1@, opt_view(hs[i].type_info)) by {
            assert(r.fields@[i] == rows[k].fields@[i]);
        }
        law_row_round_trip(r, hs);
        lemma_cells(r, hs);
        let cs = cells(r, hs);
        assert forall|j: int| 0 <= j < cs.len() implies forall|m: int| 0 <= m < (#[trigger] cs[j]).len() ==> !is_ws(cs[j][m]) by {
            lemma_key_pos(r.fields@, hs[j].name@);
            let kp = key_pos(r.fields@, hs[j].name@);
            assert(r.fields@[j].0@ == hs[j].name@);
            if kp != j {
                assert(r.fields@[kp].0@ == hs[kp].name@);
            }
            match r.fields@[j].1@ {
                ValueModel::Int(x) => {
                    lemma_int_text(x);
                },
                ValueModel::Str(x) => {
                    assert(!needs_quotes(x));
                },
                _ => {},
            }
        }
        lemma_join_no_ws(cs, ',');
        assert(cs.len() > 0);
        assert(cs[0].len() > 0) by {
            lemma_key_pos(r.fields@, hs[0].name@);
            match r.fields@[0].1@ {
                ValueModel::Int(x) => {
                    lemma_int_text(x);
                },
                _ => {},
            }
        }
        assert(rl[k] == row_line(r, hs));
        assert(join_sep(cs, ',').len() > 0) by {
            lemma_join_len(cs, ',');
        }
        lemma_no_ws_trim(rl[k]);
    }
    // the block
    assert forall|j: int| 0 <= j < ls.len() implies (#[trigger] ls[j]).len() > 0 && trim(ls[j]) == ls[j] by {
        if j >= 2 {
            assert(ls[j] == rl[j - 2]);
        }
    }
    lemma_nonblank_id(ls);
    assert(ls[0] == name_line);
    assert(ls[1] == hl);
    assert(hl.len() >= 2);
    assert(is_header_text(hl));
    assert(has_header(ls));
    assert(ls.skip(2) == rl);
    assert(block_ok(ls));
    if !stmt_of(Shape::Def(ls), DslStatement::Definition(n, t2)) {
        return;
    }
    let hs2 = t2.headers@;
    assert(headers_of(hs2, header_texts(hl)));
    assert forall|i: int| 0 <= i < hs.len() implies opt_view((#[trigger] hs2[i]).type_info) == opt_view(hs[i].type_info) by {}
    lemma_pk_pos_same(hs2, hs);
    assert forall|j: int| 0 <= j < rl.len() implies data_line_fits(#[trigger] rl[j], hs2) by {
        assert(data_line_fits(rl[j], hs));
    }
    lemma_fitting_id(rl, hs2);
    assert(t2.wf());
    assert forall|k: int, i: int| 0 <= k < rows.len() && 0 <= i < hs.len() implies (#[trigger] t2.data->Sequential_0@[k].fields@[i]).1@
        == rows[k].fields@[i].1@ by {
        assert(row_of(t2.data->Sequential_0@[k], rl[k], hs2));
        assert(parse_value(field_text(split_top(rl[k]), i), opt_view(hs[i].type_info)) == rows[k].fields@[i].1@);
    }
}

proof fn lemma_join_len(ps: Seq<Seq<char>>, sep: char)
    requires
        ps.len() > 0,
        ps[0].len() > 0,
    ensures
        join_sep(ps, sep).len() > 0,
    decreases ps.len(),
{
    if ps.len() > 1 {
        assert(ps.drop_last()[0] == ps[0]);
        lemma_join_len(ps.drop_last(), sep);
    }
}

/// Lines joined, each followed by a newline.
pub open spec fn nl_join(ls: Seq<Seq<char>>) -> Seq<char>
    decreases ls.len(),
{
    if ls.len() == 0 {
        Seq::empty()
    } else {
        nl_join(ls.drop_last()) + ls.last() + seq!['\n']
    }
}

/// A line that the document reader keeps inside a definition block: it is
/// not blank, holds no whitespace, `~` or line break, and does not start
/// with `#` or `.`.
pub open spec fn block_line(l: Seq<char>) -> bool {
    &&& l.len() > 0
    &&& l[0] != '#'
    &&& l[0] != '.'
    &&& forall|k: int| 0 <= k < l.len() ==> !is_ws(#[trigger] l[k]) && l[k] != '~' && l[k] != '\n'
}

proof fn lemma_one_word(l: Seq<char>)
    requires
        forall|k: int| 0 <= k < l.len() ==> !is_ws(#[trigger] l[k]),
    ensures
        words_run(l) == (Seq::<Seq<char>>::empty(), l),
    decreases l.len(),
{
    if l.len() > 0 {
        assert forall|k: int| 0 <= k < l.drop_last().len() implies !is_ws(#[trigger] l.drop_last()[k]) by {
            assert(l.drop_last()[k] == l[k]);
        }
        lemma_one_word(l.drop_last());
        assert(!is_ws(l[l.len() - 1]));
        assert(l.drop_last().push(l.last()) == l);
    } else {
        assert(l == Seq::<char>::empty());
    }
}

proof fn lemma_nl_join_concat(a: Seq<Seq<char>>, b: Seq<Seq<char>>)
    ensures
        nl_join(a + b) == nl_join(a) + nl_join(b),
    decreases b.len(),
{
    if b.len() == 0 {
        assert(a + b == a);
        assert(nl_join(a) + nl_join(b) == nl_join(a));
    } else {
        assert((a + b).drop_last() == a + b.drop_last());
        lemma_nl_join_concat(a, b.drop_last());
        assert((a + b).last() == b.last());
    }
}

proof fn lemma_rows_text_join(rows: Seq<Row>, hs: Seq<HeaderField>)
    ensures
        rows_text(rows, hs) == nl_join(row_lines(rows, hs)),
    decreases rows.len(),
{
    if rows.len() > 0 {
        lemma_rows_text_join(rows.drop_last(), hs);
        assert(row_lines(rows, hs).drop_last() == row_lines(rows.drop_last(), hs));
        assert(row_lines(rows, hs).last() == row_line(rows.last(), hs));
    } else {
        assert(row_lines(rows, hs) == Seq::<Seq<char>>::empty());
    }
}

proof fn lemma_nl_piece(a: Seq<char>, p: Seq<char>)
    requires
        forall|k: int| 0 <= k < p.len() ==> #[trigger] p[k] != '\n',
    ensures
        nl_run(a + p) == (nl_run(a).0, nl_run(a).1 + p),
    decreases p.len(),
{
    if p.len() == 0 {
        assert(a + p == a);
        assert(nl_run(a).1 + p == nl_run(a).1);
    } else {
        assert forall|k: int| 0 <= k < p.drop_last().len() implies #[trigger] p.drop_last()[k] != '\n' by {
            assert(p.drop_last()[k] == p[k]);
        }
        lemma_nl_piece(a, p.drop_last());
        assert((a + p).drop_last() == a + p.drop_last());
        assert((a + p).last() == p.last());
        assert(p[p.len() - 1] != '\n');
        assert((nl_run(a).1 + p.drop_last()).push(p.last()) == nl_run(a).1 + p);
    }
}

proof fn lemma_nl_run_join(ls: Seq<Seq<char>>)
    requires
        forall|j: int| 0 <= j < ls.len() ==> forall|k: int| 0 <= k < (#[trigger] ls[j]).len() ==> ls[j][k] != '\n',
    ensures
        nl_run(nl_join(ls)) == (ls, Seq::<char>::empty()),
    decreases ls.len(),
{
    if ls.len() == 0 {
        assert(nl_join(ls) == Seq::<char>::empty());
        assert(ls == Seq::<Seq<char>>::empty());
    } else {
        let front = ls.drop_last();
        assert forall|j: int| 0 <= j < front.len() implies forall|k: int| 0 <= k < (#[trigger] front[j]).len() ==> front[j][k] != '\n' by {
            assert(front[j] == ls[j]);
        }
        lemma_nl_run_join(front);
        assert(ls.last() == ls[ls.len() - 1]);
        lemma_nl_piece(nl_join(front), ls.last());
        let x = nl_join(front) + ls.last();
        assert((x + seq!['\n']).drop_last() == x);
        assert(Seq::<char>::empty() + ls.last() == ls.last());
        assert(front.push(ls.last()) == ls);
    }
}

proof fn lemma_rstrip_one(x: Seq<char>)
    requires
        x.len() > 0,
        x.last() != '\n',
    ensures
        rstrip_nl(x + seq!['\n']) == x,
{
    assert((x + seq!['\n']).drop_last() == x);
    assert(rstrip_nl(x) == x);
}

/// Reading a block's lines one by one keeps them all in the open block.
proof fn lemma_scan_block(ls: Seq<Seq<char>>)
    requires
        forall|j: int| 0 <= j < ls.len() ==> block_line(#[trigger] ls[j]),
    ensures
        scan_run(ls) == (Seq::<Shape>::empty(), ls),
    decreases ls.len(),
{
    if ls.len() == 0 {
    } else {
        let front = ls.drop_last();
        assert forall|j: int| 0 <= j < front.len() implies block_line(#[trigger] front[j]) by {
            assert(front[j] == ls[j]);
        }
        lemma_scan_block(front);
        let l = ls.last();
        assert(l == ls[ls.len() - 1]);
        assert(block_line(l));
        assert(!starts(l, kw_update_prefix())) by {
            if starts(l, kw_update_prefix()) {
                assert(l.take(2)[0] == l[0]);
            }
        }
        assert(!starts(l, kw_pack_prefix())) by {
            if starts(l, kw_pack_prefix()) {
                assert(l.take(5)[4] == l[4]);
                assert(!is_ws(l[4]));
            }
        }
        lemma_one_word(l);
        lemma_no_ws_trim(l);
        assert(words(l) == seq![l]);
        assert(!is_copy_line(l));
        assert(!is_ref_line(l));
        lemma_no_char(l, '~');
        assert(front.push(l) == ls);
    }
}

/// What pack writes for a plain sequential table reads back through the
/// whole document reader: the text parses, as a single definition of a
/// table with the same name, header names and types, and rows.
pub proof fn law_pack_reads_back(t: Table, sts: Seq<DslStatement>)
    requires
        plain_table(t),
        forall|j: int| 0 <= j < pack_block_lines(t, t.data->Sequential_0@).len() ==> block_line(
            #[trigger] pack_block_lines(t, t.data->Sequential_0@)[j],
        ),
    ensures
        table_text(t) is Some,
        !some_fails(scan(lines_of(table_text(t)->0))),
        matches_shapes(sts, scan(lines_of(table_text(t)->0))) ==> sts.len() == 1 && (sts[0] matches DslStatement::Definition(
            n,
            t2,
        ) && same_table(t, n, t2)),
{
    let rows = t.data->Sequential_0@;
    let hs = t.headers@;
    let l = pack_block_lines(t, rows);
    let rl = row_lines(rows, hs);
    let nl = t.name@ + seq![':'];
    let hl = header_line_text(hs);
    assert(pack_rows(t) == Some(rows));
    lemma_rows_text_join(rows, hs);
    lemma_nl_join_concat(seq![nl, hl], rl);
    assert(seq![nl, hl].drop_last() == seq![nl]);
    assert(seq![nl].drop_last() == Seq::<Seq<char>>::empty());
    assert(nl_join(Seq::<Seq<char>>::empty()) == Seq::<char>::empty());
    assert(seq![nl].last() == nl);
    assert(seq![nl, hl].last() == hl);
    assert(Seq::<char>::empty() + nl == nl);
    assert(nl_join(seq![nl]) =~= nl + seq!['\n']);
    assert(nl_join(seq![nl, hl]) =~= nl + seq!['\n'] + hl + seq!['\n']);
    let a = t.name@ + seq![':', '\n'] + hl + seq!['\n'] + rows_text(rows, hs);
    assert(a =~= nl_join(l));
    assert(table_text(t) == Some(rstrip_nl(a)));
    let front = l.drop_last();
    let last = l.last();
    assert(last == l[l.len() - 1]);
    assert(block_line(last));
    assert(nl_join(l) == nl_join(front) + last + seq!['\n']);
    lemma_rstrip_one(nl_join(front) + last);
    let text = nl_join(front) + last;
    assert(rstrip_nl(a) == text);
    assert forall|j: int| 0 <= j < front.len() implies forall|k: int| 0 <= k < (#[trigger] front[j]).len() ==> front[j][k] != '\n' by {
        assert(front[j] == l[j]);
        assert(block_line(l[j]));
    }
    lemma_nl_run_join(front);
    lemma_nl_piece(nl_join(front), last);
    assert(Seq::<char>::empty() + last == last);
    assert(lines_of(text) == front.push(last));
    assert(front.push(last) == l);
    lemma_scan_block(l);
    assert(scan(l) == seq![Shape::Def(l)]);
    let n0 = if sts.len() > 0 && sts[0] is Definition { sts[0]->Definition_0 } else { t.name };
    let t0 = if sts.len() > 0 && sts[0] is Definition { sts[0]->Definition_1 } else { t };
    law_block_round_trip(t, n0, t0);
    assert(shape_ok(seq![Shape::Def(l)][0]));
}

proof fn lemma_cells_same(r: Row, hs: Seq<HeaderField>, r2: Row, hs2: Seq<HeaderField>)
    requires
        row_fits(r, hs),
        row_fits(r2, hs2),
        names_unique(hs),
        hs2.len() == hs.len(),
        forall|i: int| 0 <= i < hs.len() ==> (#[trigger] hs2[i]).name@ == hs[i].name@,
        forall|i: int| 0 <= i < hs.len() ==> (#[trigger] r2.fields@[i]).1@ == r.fields@[i].1@,
    ensures
        row_line(r2, hs2) == row_line(r, hs),
{
    lemma_cells(r, hs);
    lemma_cells(r2, hs2);
    assert forall|i: int| 0 <= i < hs.len() implies #[trigger] cells(r2, hs2)[i] == cells(r, hs)[i] by {
        lemma_key_pos(r.fields@, hs[i].name@);
        lemma_key_pos(r2.fields@, hs2[i].name@);
        let k1 = key_pos(r.fields@, hs[i].name@);
        let k2 = key_pos(r2.fields@, hs2[i].name@);
        assert(r.fields@[i].0@ == hs[i].name@);
        assert(r2.fields@[i].0@ == hs2[i].name@);
        if k1 != i {
            assert(r.fields@[k1].0@ == hs[k1].name@);
        }
        if k2 != i {
            assert(r2.fields@[k2].0@ == hs2[k2].name@);
            assert(hs2[k2].name@ == hs[k2].name@);
        }
    }
    assert(cells(r2, hs2) =~= cells(r, hs));
}

proof fn lemma_rows_text_same(rs: Seq<Row>, hs: Seq<HeaderField>, rs2: Seq<Row>, hs2: Seq<HeaderField>)
    requires
        rs2.len() == rs.len(),
        forall|k: int| 0 <= k < rs.len() ==> #[trigger] row_line(rs2[k], hs2) == row_line(rs[k], hs),
    ensures
        rows_text(rs2, hs2) == rows_text(rs, hs),
    decreases rs.len(),
{
    if rs.len() > 0 {
        assert forall|k: int| 0 <= k < rs.len() - 1 implies #[trigger] row_line(rs2.drop_last()[k], hs2) == row_line(rs.drop_last()[k], hs) by {
            assert(rs2.drop_last()[k] == rs2[k]);
            assert(rs.drop_last()[k] == rs[k]);
        }
        lemma_rows_text_same(rs.drop_last(), hs, rs2.drop_last(), hs2);
        assert(rs.last() == rs[rs.len() - 1]);
        assert(rs2.last() == rs2[rs.len() - 1]);
    }
}

/// Packing what was read back from a plain sequential table's pack gives the
/// same text again, byte for byte.
pub proof fn law_repack_identical(t: Table, n: String, t2: Table)
    requires
        plain_table(t),
        t2.wf(),
        t2.name@ == n@,
        same_table(t, n, t2),
    ensures
        table_text(t2) == table_text(t),
{
    let hs = t.headers@;
    let hs2 = t2.headers@;
    let rows = t.data->Sequential_0@;
    let rows2 = t2.data->Sequential_0@;
    lemma_pk_pos_same(hs2, hs);
    lemma_header_texts_of(hs);
    lemma_header_texts_of(hs2);
    assert forall|i: int| 0 <= i < hs.len() implies #[trigger] header_texts_of(hs2)[i] == header_texts_of(hs)[i] by {
        assert(hs2[i].is_primary_key == hs[i].is_primary_key);
        match hs[i].type_info {
            Some(ty) => {
                assert(opt_view(hs2[i].type_info) == Some(ty@));
            },
            None => {},
        }
    }
    assert(header_texts_of(hs2) =~= header_texts_of(hs));
    assert forall|k: int| 0 <= k < rows.len() implies #[trigger] row_line(rows2[k], hs2) == row_line(rows[k], hs) by {
        assert forall|i: int| 0 <= i < hs.len() implies (#[trigger] rows2[k].fields@[i]).1@ == rows[k].fields@[i].1@ by {
            assert(rows2[k].fields@[i] == t2.data->Sequential_0@[k].fields@[i]);
        }
        assert(row_fits(rows[k], hs));
        assert(row_fits(rows2[k], hs2));
        lemma_cells_same(rows[k], hs, rows2[k], hs2);
    }
    lemma_rows_text_same(rows, hs, rows2, hs2);
    assert(pack_rows(t2) == Some(rows2));
    assert(pack_rows(t) == Some(rows));
}

} // verus!
