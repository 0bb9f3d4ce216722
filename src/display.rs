//! The canonical text of values and arrays.

use vstd::prelude::*;
use crate::array::Array;
use crate::text::push_char;
use crate::value::{lemma_values_view, Operator, Value, ValueView};

verus! {

/// The decimal digit for `d < 10`.
pub open spec fn digit_char(d: nat) -> char {
    if d < 10 { ((d + 48) as u8) as char } else { '0' }
}

/// The decimal digits of `n`, most significant first, without leading zeros.
pub open spec fn dec(n: nat) -> Seq<char>
    decreases n,
{
    if n < 10 {
        seq![digit_char(n)]
    } else {
        dec(n / 10).push(digit_char(n % 10))
    }
}

/// A number as text: an optional minus sign and its decimal digits.
pub open spec fn number_text(n: int) -> Seq<char> {
    if n < 0 {
        seq!['-'] + dec((-n) as nat)
    } else {
        dec(n as nat)
    }
}

/// A character inside a quoted string: a quote or a backslash escaped.
pub open spec fn escaped(c: char) -> Seq<char> {
    if c == '\'' || c == '\\' {
        seq!['\\', c]
    } else {
        seq![c]
    }
}

pub open spec fn escape(t: Seq<char>) -> Seq<char>
    decreases t.len(),
{
    if t.len() == 0 {
        t
    } else {
        escape(t.drop_last()) + escaped(t.last())
    }
}

pub open spec fn op_text(o: Operator) -> Seq<char> {
    match o {
        Operator::Add => seq![' ', '+', ' '],
        Operator::Sub => seq![' ', '-', ' '],
        Operator::Mul => seq![' ', '*', ' '],
    }
}

/// The canonical text of a value.
pub open spec fn render(v: ValueView) -> Seq<char>
    decreases v,
{
    match v {
        ValueView::Null => seq!['N', 'U', 'L', 'L'],
        ValueView::Bool(b) => if b {
            seq!['t', 'r', 'u', 'e']
        } else {
            seq!['f', 'a', 'l', 's', 'e']
        },
        ValueView::Number(n) => number_text(n),
        ValueView::Strand(t) => seq!['\''] + escape(t) + seq!['\''],
        ValueView::Param(n) => seq!['$'] + n,
        ValueView::Array(s) => seq!['['] + render_list(s) + seq![']'],
        ValueView::Expression(l, o, r) => render(*l) + op_text(o) + render(*r),
    }
}

/// The texts of the elements of `s`, separated by `", "`.
pub open spec fn render_list(s: Seq<ValueView>) -> Seq<char>
    decreases s,
{
    if s.len() == 0 {
        Seq::empty()
    } else if s.len() == 1 {
        render(s[0])
    } else {
        render_list(s.drop_last()) + seq![',', ' '] + render(s.last())
    }
}

fn push_str(out: &mut String, t: &str)
    ensures
        final(out)@ == old(out)@ + t@,
{
    let cs = crate::text::chars_of(t);
    let mut i: usize = 0;
    let ghost o = out@;
    while i < cs.len()
        invariant
            i <= cs.len(),
            cs@ == t@,
            out@ == o + cs@.subrange(0, i as int),
        decreases cs.len() - i,
    {
        push_char(out, cs[i]);
        i = i + 1;
        assert(out@ =~= o + cs@.subrange(0, i as int));
    }
    assert(cs@.subrange(0, cs.len() as int) =~= cs@);
}

fn push_dec(out: &mut String, n: u64)
    ensures
        final(out)@ == old(out)@ + dec(n as nat),
    decreases n,
{
    let ghost o = out@;
    if n >= 10 {
        push_dec(out, n / 10);
    }
    let d = (n % 10) as u8;
    push_char(out, (d + 48) as char);
    assert(out@ =~= o + dec(n as nat));
}

fn push_value(out: &mut String, v: &Value)
    ensures
        final(out)@ == old(out)@ + render(v@),
    decreases v,
{
    let ghost o = out@;
    match v {
        Value::Null => {
            push_str(out, "NULL");
            proof {
                reveal_strlit("NULL");
            }
            assert(out@ =~= o + render(v@));
        },
        Value::Bool(b) => {
            if *b {
                push_str(out, "true");
                proof {
                    reveal_strlit("true");
                }
            } else {
                push_str(out, "false");
                proof {
                    reveal_strlit("false");
                }
            }
            assert(out@ =~= o + render(v@));
        },
        Value::Number(n) => {
            if *n < 0 {
                push_char(out, '-');
                let m: u64 = (-(*n as i128)) as u64;
                push_dec(out, m);
            } else {
                push_dec(out, *n as u64);
            }
            assert(out@ =~= o + render(v@));
        },
        Value::Strand(t) => {
            push_char(out, '\'');
            let cs = crate::text::chars_of(t.as_str());
            let mut i: usize = 0;
            assert(cs@.subrange(0, 0) =~= Seq::<char>::empty());
            while i < cs.len()
                invariant
                    i <= cs.len(),
                    cs@ == t@,
                    out@ == o + seq!['\''] + escape(cs@.subrange(0, i as int)),
                decreases cs.len() - i,
            {
                let c = cs[i];
                if c == '\'' || c == '\\' {
                    push_char(out, '\\');
                }
                push_char(out, c);
                assert(cs@.subrange(0, i + 1).drop_last() =~= cs@.subrange(0, i as int));
                i = i + 1;
                assert(out@ =~= o + seq!['\''] + escape(cs@.subrange(0, i as int)));
            }
            assert(cs@.subrange(0, cs.len() as int) =~= cs@);
            push_char(out, '\'');
            assert(out@ =~= o + render(v@));
        },
        Value::Param(n) => {
            push_char(out, '$');
            push_str(out, n.as_str());
            assert(out@ =~= o + render(v@));
        },
        Value::Array(a) => {
            proof {
                lemma_values_view(a.0@);
            }
            push_array(out, a);
        },
        Value::Expression(e) => {
            push_value(out, &e.l);
            match e.o {
                Operator::Add => push_str(out, " + "),
                Operator::Sub => push_str(out, " - "),
                Operator::Mul => push_str(out, " * "),
            }
            proof {
                reveal_strlit(" + ");
                reveal_strlit(" - ");
                reveal_strlit(" * ");
            }
            push_value(out, &e.r);
            assert(out@ =~= o + render(v@));
        },
    }
}

fn push_array(out: &mut String, a: &Array)
    ensures
        final(out)@ == old(out)@ + render(ValueView::Array(a@)),
    decreases a,
{
    let ghost o = out@;
    let ghost s = a@;
    push_char(out, '[');
    let n = a.0.len();
    let mut i: usize = 0;
    assert(s.subrange(0, 0) =~= Seq::<ValueView>::empty());
    while i < n
        invariant
            n == a.0.len(),
            s == a@,
            i <= n,
            out@ == o + seq!['['] + render_list(s.subrange(0, i as int)),
        decreases n - i,
    {
        if i > 0 {
            push_char(out, ',');
            push_char(out, ' ');
        }
        push_value(out, &a.0[i]);
        proof {
            let p = s.subrange(0, i + 1);
            assert(p.drop_last() =~= s.subrange(0, i as int));
            assert(p.last() == s[i as int]);
            if i == 0 {
                assert(p[0] == s[0]);
            }
        }
        i = i + 1;
        assert(out@ =~= o + seq!['['] + render_list(s.subrange(0, i as int)));
    }
    assert(s.subrange(0, n as int) =~= s);
    push_char(out, ']');
    assert(out@ =~= o + render(ValueView::Array(a@)));
}

impl Value {
    /// The canonical text of this value.
    pub fn to_string(&self) -> (r: String)
        ensures
            r@ == render(self@),
    {
        let mut out = String::new();
        push_value(&mut out, self);
        assert(out@ =~= render(self@));
        out
    }
}

impl Array {
    /// The canonical text: `[`, the elements separated by `", "`, `]`.
    pub fn to_string(&self) -> (r: String)
        ensures
            r@ == render(ValueView::Array(self@)),
    {
        let mut out = String::new();
        push_array(&mut out, self);
        assert(out@ =~= render(ValueView::Array(self@)));
        out
    }
}

} // verus!
