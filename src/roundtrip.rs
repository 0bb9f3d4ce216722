//! Parsing the canonical text of an array of scalars gives the array back.

use vstd::prelude::*;
use crate::display::{dec, digit_char, escape, escaped, render, render_list};
use crate::parser::{
    digit_end, digits_val, has_word, is_digit, is_ws, p_array, p_items, p_number, p_operand, p_value,
    scan_strand, skip_ws, MAX_NESTING,
};
use crate::value::ValueView;

verus! {

/// A value without nesting or unresolved parts, its number within 64 bits.
pub open spec fn is_scalar(v: ValueView) -> bool {
    match v {
        ValueView::Null => true,
        ValueView::Bool(_) => true,
        ValueView::Strand(_) => true,
        ValueView::Number(n) => i64::MIN <= n <= i64::MAX,
        _ => false,
    }
}

/// `s` holds `r` at position `i`.
pub open spec fn at(s: Seq<char>, i: int, r: Seq<char>) -> bool {
    0 <= i && i + r.len() <= s.len() && forall|k: int| 0 <= k < r.len() ==> s[i + k] == #[trigger] r[k]
}

proof fn lemma_word(s: Seq<char>, i: int, w: Seq<char>)
    requires
        0 <= i < s.len(),
        w.len() > 0,
    ensures
        at(s, i, w) ==> has_word(s, i, w),
        s[i] != w[0] ==> !has_word(s, i, w),
{
    if at(s, i, w) {
        assert(s.subrange(i, i + w.len()) =~= w);
    }
    if has_word(s, i, w) {
        assert(s.subrange(i, i + w.len())[0] == s[i]);
    }
}

proof fn lemma_dec(m: nat)
    ensures
        dec(m).len() >= 1,
        forall|k: int| 0 <= k < dec(m).len() ==> is_digit(#[trigger] dec(m)[k]),
        digits_val(dec(m)) == m,
    decreases m,
{
    if m < 10 {
        assert(dec(m).drop_last() =~= Seq::<char>::empty());
        assert(digits_val(Seq::<char>::empty()) == 0);
        assert(dec(m).last() == digit_char(m));
        assert(digit_char(m) as int == m + 48);
    } else {
        lemma_dec(m / 10);
        assert(dec(m).drop_last() =~= dec(m / 10));
        assert(dec(m).last() == digit_char(m % 10));
        assert(digit_char(m % 10) as int == m % 10 + 48);
        assert(m == (m / 10) * 10 + m % 10);
    }
}

proof fn lemma_digit_end(s: Seq<char>, j: int, d: Seq<char>)
    requires
        at(s, j, d),
        forall|k: int| 0 <= k < d.len() ==> is_digit(#[trigger] d[k]),
        j + d.len() < s.len(),
        !is_digit(s[j + d.len()]),
    ensures
        digit_end(s, j) == j + d.len(),
    decreases d.len(),
{
    if d.len() > 0 {
        assert(s[j + 0] == d[0]);
        let r = d.drop_first();
        assert forall|k: int| 0 <= k < r.len() implies s[j + 1 + k] == #[trigger] r[k] by {
            assert(s[j + (k + 1)] == d[k + 1]);
        }
        assert forall|k: int| 0 <= k < r.len() implies is_digit(#[trigger] r[k]) by {
            assert(is_digit(d[k + 1]));
        }
        lemma_digit_end(s, j + 1, r);
    }
}

proof fn lemma_escape_cons(c: char, t: Seq<char>)
    ensures
        escape(seq![c] + t) == escaped(c) + escape(t),
    decreases t.len(),
{
    if t.len() == 0 {
        assert(seq![c] + t =~= seq![c]);
        assert(seq![c].drop_last() =~= Seq::<char>::empty());
        assert(escape(Seq::<char>::empty()) == Seq::<char>::empty());
        assert(seq![c].last() == c);
        assert(escape(seq![c]) =~= escaped(c));
        assert(escape(t) == Seq::<char>::empty());
        assert(escaped(c) + escape(t) =~= escaped(c));
    } else {
        assert((seq![c] + t).drop_last() =~= seq![c] + t.drop_last());
        assert((seq![c] + t).last() == t.last());
        lemma_escape_cons(c, t.drop_last());
        assert(escape(seq![c] + t) =~= escaped(c) + escape(t));
    }
}

proof fn lemma_scan(s: Seq<char>, j: int, t: Seq<char>)
    requires
        at(s, j, escape(t) + seq!['\'']),
    ensures
        scan_strand(s, j) == Some((j + escape(t).len() + 1, t)),
    decreases t.len(),
{
    if t.len() == 0 {
        assert(escape(t) =~= Seq::<char>::empty());
        assert(s[j + 0] == (escape(t) + seq!['\''])[0]);
    } else {
        let c = t[0];
        let rest = t.drop_first();
        assert(seq![c] + rest =~= t);
        lemma_escape_cons(c, rest);
        let e = escape(t) + seq!['\''];
        assert(e =~= escaped(c) + (escape(rest) + seq!['\'']));
        let w = escaped(c).len();
        assert(s[j + 0] == e[0]);
        assert forall|k: int| 0 <= k < escape(rest).len() + 1 implies s[j + w + k] == #[trigger] (
        escape(rest) + seq!['\''])[k] by {
            assert(s[j + (w + k)] == e[w + k]);
        }
        lemma_scan(s, j + w, rest);
        if c == '\'' || c == '\\' {
            assert(s[j + 1] == e[1]);
        }
    }
}

proof fn lemma_render_list_cons(x: ValueView, rest: Seq<ValueView>)
    requires
        rest.len() >= 1,
    ensures
        render_list(seq![x] + rest) == render(x) + seq![',', ' '] + render_list(rest),
    decreases rest.len(),
{
    let s = seq![x] + rest;
    if rest.len() == 1 {
        assert(s.drop_last() =~= seq![x]);
        assert(s.last() == rest[0]);
        assert(seq![x][0] == x);
        assert(render_list(seq![x]) == render(x));
        assert(render_list(rest) == render(rest[0]));
    } else {
        assert(s.drop_last() =~= seq![x] + rest.drop_last());
        assert(s.last() == rest.last());
        lemma_render_list_cons(x, rest.drop_last());
        assert(render_list(s) =~= render(x) + seq![',', ' '] + render_list(rest));
    }
}

/// The first character of a scalar's text, which is neither whitespace nor
/// a separator.
proof fn lemma_render_first(v: ValueView)
    requires
        is_scalar(v),
    ensures
        render(v).len() >= 1,
        !is_ws(render(v)[0]),
        render(v)[0] != ',',
        render(v)[0] != ']',
{
    if let ValueView::Number(n) = v {
        if n < 0 {
            lemma_dec((-n) as nat);
        } else {
            lemma_dec(n as nat);
            assert(is_digit(dec(n as nat)[0]));
        }
    }
}

proof fn lemma_operand(s: Seq<char>, i: int, v: ValueView, d: nat)
    requires
        is_scalar(v),
        at(s, i, render(v)),
        i + render(v).len() < s.len(),
        s[i + render(v).len()] == ',' || s[i + render(v).len()] == ']',
    ensures
        p_operand(s, i, d) == Some((i + render(v).len(), v)),
        p_value(s, i, d) == Some((i + render(v).len(), v)),
{
    let r = render(v);
    let j = i + r.len();
    lemma_render_first(v);
    assert(s[i + 0] == r[0]);
    let t = seq!['t', 'r', 'u', 'e'];
    let f = seq!['f', 'a', 'l', 's', 'e'];
    let nl = seq!['N', 'U', 'L', 'L'];
    lemma_word(s, i, t);
    lemma_word(s, i, f);
    lemma_word(s, i, nl);
    match v {
        ValueView::Null => {
            assert(r =~= nl);
        },
        ValueView::Bool(b) => {
            if b {
                assert(r =~= t);
            } else {
                assert(r =~= f);
            }
        },
        ValueView::Strand(x) => {
            assert forall|k: int| 0 <= k < escape(x).len() + 1 implies s[i + 1 + k] == #[trigger] (
            escape(x) + seq!['\''])[k] by {
                assert(s[i + (1 + k)] == r[1 + k]);
            }
            lemma_scan(s, i + 1, x);
        },
        ValueView::Number(n) => {
            let neg = n < 0;
            let m: nat = if neg { (-n) as nat } else { n as nat };
            lemma_dec(m);
            let d = dec(m);
            let st = if neg { i + 1 } else { i };
            assert(r =~= if neg { seq!['-'] + d } else { d });
            assert forall|k: int| 0 <= k < d.len() implies s[st + k] == #[trigger] d[k] by {
                if neg {
                    assert(s[i + (1 + k)] == r[1 + k]);
                } else {
                    assert(s[i + k] == r[k]);
                }
            }
            if !neg {
                assert(is_digit(d[0]));
            }
            lemma_digit_end(s, st, d);
            assert(s.subrange(st, st + d.len()) =~= d);
            assert(p_number(s, i) == Some((j, v)));
        },
        _ => {},
    }
    assert(skip_ws(s, j) == j);
}

proof fn lemma_items(s: Seq<char>, i: int, vs: Seq<ValueView>, d: nat)
    requires
        vs.len() >= 1,
        forall|k: int| 0 <= k < vs.len() ==> is_scalar(#[trigger] vs[k]),
        at(s, i, render_list(vs) + seq![']']),
    ensures
        p_items(s, i, d) == Some((i + render_list(vs).len() + 1, vs)),
    decreases vs.len(),
{
    let x = vs[0];
    assert(is_scalar(vs[0]));
    let rx = render(x);
    let l = render_list(vs) + seq![']'];
    if vs.len() == 1 {
        assert(render_list(vs) == rx);
        assert forall|k: int| 0 <= k < rx.len() implies s[i + k] == #[trigger] rx[k] by {
            assert(l[k] == rx[k]);
        }
        assert(s[i + rx.len()] == l[rx.len() as int]);
        lemma_operand(s, i, x, d);
        assert(seq![x] =~= vs);
    } else {
        let rest = vs.drop_first();
        assert(seq![x] + rest =~= vs);
        lemma_render_list_cons(x, rest);
        let rr = render_list(rest);
        assert(l =~= rx + (seq![',', ' '] + (rr + seq![']'])));
        assert forall|k: int| 0 <= k < rx.len() implies s[i + k] == #[trigger] rx[k] by {
            assert(l[k] == rx[k]);
        }
        let j = i + rx.len();
        assert(s[j] == l[rx.len() as int]);
        assert(s[j + 1] == l[rx.len() as int + 1]);
        lemma_operand(s, i, x, d);
        assert forall|k: int| 0 <= k < rr.len() + 1 implies s[j + 2 + k] == #[trigger] (rr + seq![']'])[k] by {
            assert(s[i + (rx.len() + 2 + k)] == l[rx.len() as int + 2 + k]);
        }
        assert(forall|k: int| 0 <= k < rest.len() ==> is_scalar(#[trigger] rest[k]) ) by {
            assert forall|k: int| 0 <= k < rest.len() implies is_scalar(#[trigger] rest[k]) by {
                assert(rest[k] == vs[k + 1]);
            }
        }
        lemma_items(s, j + 2, rest, d);
        lemma_render_first(rest[0]);
        if rest.len() == 1 {
            assert(rr == render(rest[0]));
        } else {
            lemma_render_list_cons(rest[0], rest.drop_first());
            assert(seq![rest[0]] + rest.drop_first() =~= rest);
        }
        assert(rr[0] == render(rest[0])[0]);
        assert(s[j + 2 + 0] == (rr + seq![']'])[0]);
        assert(skip_ws(s, j + 2) == j + 2);
        assert(skip_ws(s, j + 1) == j + 2);
        assert(skip_ws(s, j) == j);
    }
}

/// Parsing the canonical text of an array of scalars gives back that array
/// and consumes the whole text.
pub proof fn display_parse_round_trip(vs: Seq<ValueView>)
    requires
        forall|k: int| 0 <= k < vs.len() ==> is_scalar(#[trigger] vs[k]),
    ensures
        p_array(render(ValueView::Array(vs)), 0, MAX_NESTING as nat) == Some(
            (render(ValueView::Array(vs)).len() as int, ValueView::Array(vs)),
        ),
{
    let t = render(ValueView::Array(vs));
    let rl = render_list(vs);
    assert(t == seq!['['] + rl + seq![']']);
    assert(t[0] == '[');
    if vs.len() == 0 {
        assert(rl =~= Seq::<char>::empty());
        assert(t[1] == ']');
        assert(skip_ws(t, 1) == 1);
        assert(vs =~= Seq::<ValueView>::empty());
    } else {
        assert forall|k: int| 0 <= k < rl.len() + 1 implies t[1 + k] == #[trigger] (rl + seq![']'])[k] by {
        }
        lemma_items(t, 1, vs, (MAX_NESTING - 1) as nat);
        lemma_render_first(vs[0]);
        if vs.len() == 1 {
            assert(rl == render(vs[0]));
        } else {
            lemma_render_list_cons(vs[0], vs.drop_first());
            assert(seq![vs[0]] + vs.drop_first() =~= vs);
        }
        assert(t[1] == rl[0]);
        assert(skip_ws(t, 1) == 1);
    }
}

} // verus!
