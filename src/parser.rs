//! The array literal grammar, as spec functions and as the parser proved to follow them.

use vstd::prelude::*;
use crate::array::Array;
use crate::text::{chars_of, push_char};
use crate::value::{lemma_values_view, Expression, Operator, Value, ValueView};

verus! {

pub open spec fn is_ws(c: char) -> bool {
    c == ' ' || c == '\t' || c == '\n' || c == '\r'
}

pub open spec fn is_digit(c: char) -> bool {
    '0' <= c && c <= '9'
}

pub open spec fn is_ident(c: char) -> bool {
    is_digit(c) || ('a' <= c && c <= 'z') || ('A' <= c && c <= 'Z') || c == '_'
}

/// The first position at or after `i` that holds no whitespace.
pub open spec fn skip_ws(s: Seq<char>, i: int) -> int
    decreases s.len() - i,
{
    if 0 <= i < s.len() && is_ws(s[i]) {
        skip_ws(s, i + 1)
    } else {
        i
    }
}

/// The end of the run of digits that starts at `i`.
pub open spec fn digit_end(s: Seq<char>, i: int) -> int
    decreases s.len() - i,
{
    if 0 <= i < s.len() && is_digit(s[i]) {
        digit_end(s, i + 1)
    } else {
        i
    }
}

/// The end of the run of identifier characters that starts at `i`.
pub open spec fn ident_end(s: Seq<char>, i: int) -> int
    decreases s.len() - i,
{
    if 0 <= i < s.len() && is_ident(s[i]) {
        ident_end(s, i + 1)
    } else {
        i
    }
}

/// The number that a sequence of decimal digits denotes.
pub open spec fn digits_val(ds: Seq<char>) -> int
    decreases ds.len(),
{
    if ds.len() == 0 {
        0
    } else {
        digits_val(ds.drop_last()) * 10 + (ds.last() as int - 48)
    }
}

/// `s` holds the word `w` at position `i`.
pub open spec fn has_word(s: Seq<char>, i: int, w: Seq<char>) -> bool {
    0 <= i && i + w.len() <= s.len() && s.subrange(i, i + w.len()) == w
}

/// An integer literal: an optional minus sign and digits, within 64 bits.
pub open spec fn p_number(s: Seq<char>, i: int) -> Option<(int, ValueView)> {
    let neg = 0 <= i < s.len() && s[i] == '-';
    let j = if neg { i + 1 } else { i };
    let k = digit_end(s, j);
    if k == j {
        None
    } else {
        let m = digits_val(s.subrange(j, k));
        let n = if neg { -m } else { m };
        if i64::MIN <= n <= i64::MAX {
            Some((k, ValueView::Number(n)))
        } else {
            None
        }
    }
}

/// The body of a quoted string from `j` to its closing quote: the position
/// after that quote and the characters, a backslash taking the next one as it is.
pub open spec fn scan_strand(s: Seq<char>, j: int) -> Option<(int, Seq<char>)>
    decreases s.len() - j,
{
    if j < 0 || j >= s.len() {
        None
    } else if s[j] == '\'' {
        Some((j + 1, Seq::empty()))
    } else if s[j] == '\\' {
        if j + 1 >= s.len() {
            None
        } else {
            match scan_strand(s, j + 2) {
                Some((k, t)) => Some((k, seq![s[j + 1]] + t)),
                None => None,
            }
        }
    } else {
        match scan_strand(s, j + 1) {
            Some((k, t)) => Some((k, seq![s[j]] + t)),
            None => None,
        }
    }
}

pub open spec fn op_at(s: Seq<char>, i: int) -> Option<Operator> {
    if 0 <= i < s.len() {
        if s[i] == '+' {
            Some(Operator::Add)
        } else if s[i] == '-' {
            Some(Operator::Sub)
        } else if s[i] == '*' {
            Some(Operator::Mul)
        } else {
            None
        }
    } else {
        None
    }
}

/// An operand at `i`: an array, a quoted string, a parameter, a keyword or
/// an integer.
pub open spec fn p_operand(s: Seq<char>, i: int, d: nat) -> Option<(int, ValueView)>
    decreases s.len() - i, 1nat,
{
    if i < 0 || i >= s.len() {
        None
    } else if s[i] == '[' {
        p_array(s, i, d)
    } else if s[i] == '\'' {
        match scan_strand(s, i + 1) {
            Some((k, t)) => Some((k, ValueView::Strand(t))),
            None => None,
        }
    } else if s[i] == '$' {
        let k = ident_end(s, i + 1);
        if k == i + 1 {
            None
        } else {
            Some((k, ValueView::Param(s.subrange(i + 1, k))))
        }
    } else if has_word(s, i, seq!['t', 'r', 'u', 'e']) {
        Some((i + 4, ValueView::Bool(true)))
    } else if has_word(s, i, seq!['f', 'a', 'l', 's', 'e']) {
        Some((i + 5, ValueView::Bool(false)))
    } else if has_word(s, i, seq!['N', 'U', 'L', 'L']) {
        Some((i + 4, ValueView::Null))
    } else {
        p_number(s, i)
    }
}

/// An element at `i`: an operand, or two operands around an operator.
pub open spec fn p_value(s: Seq<char>, i: int, d: nat) -> Option<(int, ValueView)>
    decreases s.len() - i, 2nat,
{
    match p_operand(s, i, d) {
        None => None,
        Some((j, l)) => {
            let k = skip_ws(s, j);
            match op_at(s, k) {
                None => Some((j, l)),
                Some(o) => {
                    let m = skip_ws(s, k + 1);
                    if m <= i || m > s.len() {
                        None
                    } else {
                        match p_operand(s, m, d) {
                            Some((e, r)) => Some((e, ValueView::Expression(Box::new(l), o, Box::new(r)))),
                            None => None,
                        }
                    }
                },
            }
        },
    }
}

/// The elements of a non-empty array from `i` through its closing bracket.
pub open spec fn p_items(s: Seq<char>, i: int, d: nat) -> Option<(int, Seq<ValueView>)>
    decreases s.len() - i, 3nat,
{
    match p_value(s, i, d) {
        None => None,
        Some((j, v)) => {
            let k = skip_ws(s, j);
            if 0 <= k < s.len() && s[k] == ',' {
                let m = skip_ws(s, k + 1);
                if 0 <= m < s.len() && s[m] == ']' {
                    Some((m + 1, seq![v]))
                } else if m <= i || m > s.len() {
                    None
                } else {
                    match p_items(s, m, d) {
                        Some((e, r)) => Some((e, seq![v] + r)),
                        None => None,
                    }
                }
            } else if 0 <= k < s.len() && s[k] == ']' {
                Some((k + 1, seq![v]))
            } else {
                None
            }
        },
    }
}

/// An array literal at `i`:
/// `'[' ws? (value (ws? ',' ws? value)*)? ws? ','? ws? ']'`, with arrays
/// nested at most `d` deep.
pub open spec fn p_array(s: Seq<char>, i: int, d: nat) -> Option<(int, ValueView)>
    decreases s.len() - i, 0nat,
{
    if d > 0 && 0 <= i < s.len() && s[i] == '[' {
        let j = skip_ws(s, i + 1);
        if 0 <= j < s.len() && s[j] == ']' {
            Some((j + 1, ValueView::Array(Seq::empty())))
        } else if 0 <= j < s.len() && s[j] == ',' {
            let k = skip_ws(s, j + 1);
            if 0 <= k < s.len() && s[k] == ']' {
                Some((k + 1, ValueView::Array(Seq::empty())))
            } else {
                None
            }
        } else if j <= i || j > s.len() {
            None
        } else {
            match p_items(s, j, (d - 1) as nat) {
                Some((e, r)) => Some((e, ValueView::Array(r))),
                None => None,
            }
        }
    } else {
        None
    }
}

/// How deep arrays may nest in a literal; deeper literals are rejected.
pub const MAX_NESTING: usize = 128;

/// A literal that failed to parse, with the position where it failed.
#[derive(Debug)]
pub struct ParseError {
    pub pos: usize,
}

/// The exec result `r` is what the grammar gives: the same end and model on
/// success, a failure position within the text otherwise.
pub open spec fn parsed_as(r: Result<(usize, Value), usize>, g: Option<(int, ValueView)>, len: int) -> bool {
    match (r, g) {
        (Ok((j, v)), Some((k, w))) => j == k && v@ == w,
        (Err(p), None) => p <= len,
        _ => false,
    }
}

fn skip_ws_at(s: &Vec<char>, i: usize) -> (r: usize)
    requires
        i <= s.len(),
    ensures
        r == skip_ws(s@, i as int),
        i <= r <= s.len(),
{
    let mut j = i;
    while j < s.len() && (s[j] == ' ' || s[j] == '\t' || s[j] == '\n' || s[j] == '\r')
        invariant
            i <= j <= s.len(),
            skip_ws(s@, i as int) == skip_ws(s@, j as int),
        decreases s.len() - j,
    {
        j = j + 1;
    }
    j
}

fn ident_end_at(s: &Vec<char>, i: usize) -> (r: usize)
    requires
        i <= s.len(),
    ensures
        r == ident_end(s@, i as int),
        i <= r <= s.len(),
{
    let mut j = i;
    while j < s.len() && (('0' <= s[j] && s[j] <= '9') || ('a' <= s[j] && s[j] <= 'z') || ('A'
        <= s[j] && s[j] <= 'Z') || s[j] == '_')
        invariant
            i <= j <= s.len(),
            ident_end(s@, i as int) == ident_end(s@, j as int),
        decreases s.len() - j,
    {
        j = j + 1;
    }
    j
}

fn at_word(s: &Vec<char>, i: usize, w: &Vec<char>) -> (r: bool)
    requires
        i <= s.len(),
    ensures
        r == has_word(s@, i as int, w@),
{
    if w.len() > s.len() - i {
        return false;
    }
    let mut k: usize = 0;
    while k < w.len()
        invariant
            i + w.len() <= s.len(),
            k <= w.len(),
            forall|m: int| 0 <= m < k ==> s@[i + m] == w@[m],
        decreases w.len() - k,
    {
        if s[i + k] != w[k] {
            assert(s@.subrange(i as int, i + w.len())[k as int] != w@[k as int]);
            return false;
        }
        k = k + 1;
    }
    assert(s@.subrange(i as int, i + w.len()) =~= w@);
    true
}

fn string_of(s: &Vec<char>, a: usize, b: usize) -> (r: String)
    requires
        a <= b <= s.len(),
    ensures
        r@ == s@.subrange(a as int, b as int),
{
    let mut out = String::new();
    let mut k = a;
    while k < b
        invariant
            a <= k <= b <= s.len(),
            out@ == s@.subrange(a as int, k as int),
        decreases b - k,
    {
        push_char(&mut out, s[k]);
        k = k + 1;
        assert(out@ =~= s@.subrange(a as int, k as int));
    }
    out
}

proof fn lemma_digits_val_prefix(ds: Seq<char>, x: int)
    requires
        0 <= x <= ds.len(),
        forall|m: int| 0 <= m < ds.len() ==> is_digit(#[trigger] ds[m]),
    ensures
        0 <= digits_val(ds.subrange(0, x)) <= digits_val(ds),
    decreases ds.len(),
{
    if x == ds.len() {
        assert(ds.subrange(0, x) =~= ds);
        if ds.len() > 0 {
            lemma_digits_val_prefix(ds.drop_last(), x - 1);
            assert(ds.drop_last().subrange(0, x - 1) =~= ds.drop_last());
            assert(is_digit(ds[ds.len() - 1]));
        }
    } else {
        lemma_digits_val_prefix(ds.drop_last(), x);
        assert(ds.drop_last().subrange(0, x) =~= ds.subrange(0, x));
        lemma_digits_val_prefix(ds.drop_last(), ds.len() - 1);
        assert(ds.drop_last().subrange(0, ds.len() - 1) =~= ds.drop_last());
        assert(is_digit(ds[ds.len() - 1]));
    }
}

proof fn lemma_digit_run(s: Seq<char>, j: int, x: int)
    requires
        0 <= j <= x <= s.len(),
        forall|m: int| j <= m < x ==> is_digit(#[trigger] s[m]),
    ensures
        j <= digit_end(s, j) <= s.len(),
        x <= digit_end(s, j),
        digit_end(s, x) == digit_end(s, j),
        forall|m: int| j <= m < digit_end(s, j) ==> is_digit(#[trigger] s[m]),
    decreases s.len() - j,
{
    if j < x {
        lemma_digit_run(s, j + 1, x);
    } else if j < s.len() && is_digit(s[j]) {
        lemma_digit_run(s, j + 1, j + 1);
    }
}

fn number_at(s: &Vec<char>, i: usize) -> (r: Result<(usize, Value), usize>)
    requires
        i < s.len(),
    ensures
        parsed_as(r, p_number(s@, i as int), s@.len() as int),
        r matches Ok((j, _)) ==> j > i,
{
    let neg = s[i] == '-';
    let j = if neg { i + 1 } else { i };
    let mut acc: u128 = 0;
    let mut k = j;
    let ghost e = digit_end(s@, j as int);
    proof {
        lemma_digit_run(s@, j as int, j as int);
    }
    while k < s.len() && '0' <= s[k] && s[k] <= '9'
        invariant
            i < s.len(),
            neg == (s@[i as int] == '-'),
            j == if neg { i + 1 } else { i as int },
            j <= k <= s.len(),
            e == digit_end(s@, j as int),
            digit_end(s@, k as int) == e,
            k <= e <= s.len(),
            forall|m: int| j <= m < e ==> is_digit(#[trigger] s@[m]),
            acc == digits_val(s@.subrange(j as int, k as int)),
            acc <= 9223372036854775808,
        decreases s.len() - k,
    {
        let d = (s[k] as u32 - 48) as u128;
        assert(s@.subrange(j as int, k + 1).drop_last() =~= s@.subrange(j as int, k as int));
        assert(s@.subrange(j as int, k + 1).last() == s@[k as int]);
        acc = acc * 10 + d;
        k = k + 1;
        assert(acc == digits_val(s@.subrange(j as int, k as int)));
        proof {
            lemma_digit_run(s@, j as int, k as int);
        }
        if acc > 9223372036854775808 {
            proof {
                let ds = s@.subrange(j as int, e);
                assert(ds.subrange(0, k - j) =~= s@.subrange(j as int, k as int));
                assert forall|m: int| 0 <= m < ds.len() implies is_digit(#[trigger] ds[m]) by {
                    assert(ds[m] == s@[j + m]);
                }
                lemma_digits_val_prefix(ds, k - j);
                assert(digits_val(ds) >= acc);
            }
            return Err(k);
        }
    }
    if k == j {
        return Err(k);
    }
    if neg {
        let n: i64 = (-(acc as i128)) as i64;
        Ok((k, Value::Number(n)))
    } else if acc <= 9223372036854775807 {
        Ok((k, Value::Number(acc as i64)))
    } else {
        Err(k)
    }
}

fn strand_at(s: &Vec<char>, j0: usize) -> (r: Result<(usize, String), usize>)
    requires
        j0 <= s.len(),
    ensures
        match (r, scan_strand(s@, j0 as int)) {
            (Ok((k, t)), Some((k2, t2))) => k == k2 && t@ == t2 && k > j0,
            (Err(p), None) => p <= s.len(),
            _ => false,
        },
{
    let mut acc = String::new();
    let mut j = j0;
    proof {
        lemma_scan_end(s@, j0 as int);
        match scan_strand(s@, j0 as int) {
            Some((k, t)) => {
                assert(acc@ + t =~= t);
            },
            None => {},
        }
    }
    loop
        invariant
            j0 <= j <= s.len(),
            match scan_strand(s@, j as int) {
                Some((k, t)) => scan_strand(s@, j0 as int) == Some((k, acc@ + t)) && k > j0,
                None => scan_strand(s@, j0 as int) is None,
            },
        decreases s.len() - j,
    {
        if j >= s.len() {
            return Err(j);
        }
        if s[j] == '\'' {
            assert(acc@ + Seq::<char>::empty() =~= acc@);
            return Ok((j + 1, acc));
        }
        let ghost a0 = acc@;
        if s[j] == '\\' {
            if j + 1 >= s.len() {
                return Err(j);
            }
            push_char(&mut acc, s[j + 1]);
            proof {
                lemma_scan_end(s@, j + 2);
                match scan_strand(s@, j + 2) {
                    Some((k, t)) => {
                        assert(a0 + (seq![s@[j + 1]] + t) =~= acc@ + t);
                    },
                    None => {},
                }
            }
            j = j + 2;
        } else {
            push_char(&mut acc, s[j]);
            proof {
                lemma_scan_end(s@, j + 1);
                match scan_strand(s@, j + 1) {
                    Some((k, t)) => {
                        assert(a0 + (seq![s@[j as int]] + t) =~= acc@ + t);
                    },
                    None => {},
                }
            }
            j = j + 1;
        }
    }
}

proof fn lemma_scan_end(s: Seq<char>, j: int)
    ensures
        scan_strand(s, j) matches Some((k, _)) ==> j < k <= s.len(),
    decreases s.len() - j,
{
    if 0 <= j < s.len() && s[j] != '\'' {
        if s[j] == '\\' {
            if j + 1 < s.len() {
                lemma_scan_end(s, j + 2);
            }
        } else {
            lemma_scan_end(s, j + 1);
        }
    }
}

fn operand_at(s: &Vec<char>, i: usize, d: usize) -> (r: Result<(usize, Value), usize>)
    requires
        i <= s.len(),
    ensures
        parsed_as(r, p_operand(s@, i as int, d as nat), s@.len() as int),
        r matches Ok((j, _)) ==> i < j <= s.len(),
    decreases s@.len() - i, 1nat,
{
    if i >= s.len() {
        return Err(i);
    }
    if s[i] == '[' {
        array_at(s, i, d)
    } else if s[i] == '\'' {
        proof {
            lemma_scan_end(s@, i + 1);
        }
        match strand_at(s, i + 1) {
            Ok((k, t)) => Ok((k, Value::Strand(t))),
            Err(p) => Err(p),
        }
    } else if s[i] == '$' {
        let k = ident_end_at(s, i + 1);
        if k == i + 1 {
            Err(k)
        } else {
            Ok((k, Value::Param(string_of(s, i + 1, k))))
        }
    } else if at_word(s, i, &vec!['t', 'r', 'u', 'e']) {
        Ok((i + 4, Value::Bool(true)))
    } else if at_word(s, i, &vec!['f', 'a', 'l', 's', 'e']) {
        Ok((i + 5, Value::Bool(false)))
    } else if at_word(s, i, &vec!['N', 'U', 'L', 'L']) {
        Ok((i + 4, Value::Null))
    } else {
        proof {
            let neg = s@[i as int] == '-';
            let j = if neg { i + 1 } else { i as int };
            lemma_digit_run(s@, j, j);
        }
        number_at(s, i)
    }
}

fn value_at(s: &Vec<char>, i: usize, d: usize) -> (r: Result<(usize, Value), usize>)
    requires
        i <= s.len(),
    ensures
        parsed_as(r, p_value(s@, i as int, d as nat), s@.len() as int),
        r matches Ok((j, _)) ==> i < j <= s.len(),
    decreases s@.len() - i, 2nat,
{
    let (j, l) = match operand_at(s, i, d) {
        Ok(x) => x,
        Err(p) => {
            return Err(p);
        },
    };
    let k = skip_ws_at(s, j);
    let o = if k < s.len() && s[k] == '+' {
        Operator::Add
    } else if k < s.len() && s[k] == '-' {
        Operator::Sub
    } else if k < s.len() && s[k] == '*' {
        Operator::Mul
    } else {
        return Ok((j, l));
    };
    let m = skip_ws_at(s, k + 1);
    match operand_at(s, m, d) {
        Ok((e, r)) => {
            let v = Value::Expression(Box::new(Expression { l, o, r }));
            Ok((e, v))
        },
        Err(p) => Err(p),
    }
}

fn items_at(s: &Vec<char>, i: usize, d: usize) -> (r: Result<(usize, Vec<Value>), usize>)
    requires
        i <= s.len(),
    ensures
        match (r, p_items(s@, i as int, d as nat)) {
            (Ok((j, v)), Some((k, w))) => j == k && v@.map_values(|x: Value| x@) == w && i < j
                <= s.len(),
            (Err(p), None) => p <= s.len(),
            _ => false,
        },
    decreases s@.len() - i, 3nat,
{
    let mut out: Vec<Value> = Vec::new();
    let mut cur = i;
    assert(out@.map_values(|x: Value| x@) =~= Seq::<ValueView>::empty());
    loop
        invariant
            i <= cur <= s.len(),
            match p_items(s@, cur as int, d as nat) {
                Some((e, w)) => p_items(s@, i as int, d as nat) == Some((e, out@.map_values(|x: Value| x@) + w)),
                None => p_items(s@, i as int, d as nat) is None,
            },
        decreases s.len() - cur,
    {
        let ghost acc = out@.map_values(|x: Value| x@);
        let (j, v) = match value_at(s, cur, d) {
            Ok(x) => x,
            Err(p) => {
                return Err(p);
            },
        };
        let ghost vv = v@;
        out.push(v);
        assert(out@.map_values(|x: Value| x@) =~= acc + seq![vv]);
        let k = skip_ws_at(s, j);
        if k < s.len() && s[k] == ',' {
            let m = skip_ws_at(s, k + 1);
            if m < s.len() && s[m] == ']' {
                        return Ok((m + 1, out));
            }
            proof {
                match p_items(s@, m as int, d as nat) {
                    Some((e, w)) => {
                        assert(acc + (seq![vv] + w) =~= (acc + seq![vv]) + w);
                    },
                    None => {},
                }
            }
            cur = m;
        } else if k < s.len() && s[k] == ']' {
            return Ok((k + 1, out));
        } else {
            return Err(k);
        }
    }
}

fn array_at(s: &Vec<char>, i: usize, d: usize) -> (r: Result<(usize, Value), usize>)
    requires
        i <= s.len(),
    ensures
        parsed_as(r, p_array(s@, i as int, d as nat), s@.len() as int),
        r matches Ok((j, _)) ==> i < j <= s.len(),
    decreases s@.len() - i, 0nat,
{
    if !(d > 0 && i < s.len() && s[i] == '[') {
        return Err(i);
    }
    let j = skip_ws_at(s, i + 1);
    if j < s.len() && s[j] == ']' {
        let a = Array::new();
        proof {
            lemma_values_view(a.0@);
        }
        Ok((j + 1, Value::Array(a)))
    } else if j < s.len() && s[j] == ',' {
        let k = skip_ws_at(s, j + 1);
        if k < s.len() && s[k] == ']' {
            let a = Array::new();
            proof {
                lemma_values_view(a.0@);
            }
            Ok((k + 1, Value::Array(a)))
        } else {
            Err(k)
        }
    } else {
        match items_at(s, j, d - 1) {
            Ok((e, v)) => {
                proof {
                    lemma_values_view(v@);
                }
                Ok((e, Value::Array(Array(v))))
            },
            Err(p) => Err(p),
        }
    }
}

/// Parses an array literal at the start of `i`, arrays nested at most
/// `MAX_NESTING` deep. On success, returns the text after the literal, left
/// as it is, and the array in literal order.
pub fn array(i: &str) -> (r: Result<(String, Array), ParseError>)
    ensures
        match (r, p_array(i@, 0, MAX_NESTING as nat)) {
            (Ok((rest, a)), Some((k, ValueView::Array(w)))) => rest@ == i@.subrange(k, i@.len() as int)
                && a@ == w,
            (Err(e), None) => e.pos <= i@.len(),
            _ => false,
        },
{
    let s = chars_of(i);
    match array_at(&s, 0, MAX_NESTING) {
        Ok((k, Value::Array(a))) => {
            proof {
                lemma_values_view(a.0@);
            }
            Ok((string_of(&s, k, s.len()), a))
        },
        Ok((k, _)) => Err(ParseError { pos: k }),
        Err(p) => Err(ParseError { pos: p }),
    }
}

} // verus!
