//! Positional SQL parameters, written into the query text as literals.
//!
//! A query template is read once from left to right. Outside a single-quoted
//! literal, `@p` followed by the number of an argument is replaced by that
//! argument's literal text; everything else is kept as it stands.

use crate::text::{chars_of, hex_text, push_hex, push_signed_decimal, signed_decimal};
use crate::value::{JsValueWrapper, ValueModel};
use vstd::prelude::*;
use vstd::string::StringExecFns;

verus! {

/// An argument of a query: the value, and the decimal text by which a
/// floating-point value is written. The text is read for `F64` values only.
#[derive(Debug, Clone, PartialEq, Eq)]
pub struct SqlParam {
    pub value: JsValueWrapper,
    pub double_text: String,
}

/// What an argument holds.
pub struct SqlParamModel {
    pub value: ValueModel,
    pub double_text: Seq<char>,
}

impl View for SqlParam {
    type V = SqlParamModel;

    open spec fn view(&self) -> SqlParamModel {
        SqlParamModel { value: self.value@, double_text: self.double_text@ }
    }
}

impl SqlParam {
    /// An argument that is no floating-point number. A floating-point number
    /// needs its text and is made by `double`.
    pub fn new(value: JsValueWrapper) -> (p: SqlParam)
        requires
            !(value is F64),
        ensures
            p.value == value,
            p.double_text@ == Seq::<char>::empty(),
    {
        SqlParam { value, double_text: String::new() }
    }

    /// The floating-point number with the given bits, written as `text`.
    pub fn double(bits: u64, text: String) -> (p: SqlParam)
        ensures
            p.value == JsValueWrapper::F64(bits),
            p.double_text == text,
    {
        SqlParam { value: JsValueWrapper::F64(bits), double_text: text }
    }
}

/// The text with each single quote in it written twice.
pub open spec fn quotes_doubled(s: Seq<char>) -> Seq<char>
    decreases s.len(),
{
    if s.len() == 0 {
        Seq::<char>::empty()
    } else if s.last() == '\'' {
        quotes_doubled(s.drop_last()).push('\'').push('\'')
    } else {
        quotes_doubled(s.drop_last()).push(s.last())
    }
}

/// The SQL literal that stands for an argument.
pub open spec fn sql_literal(p: SqlParamModel) -> Seq<char> {
    match p.value {
        ValueModel::Null => seq!['N', 'U', 'L', 'L'],
        ValueModel::Bool(b) => if b {
            seq!['1']
        } else {
            seq!['0']
        },
        ValueModel::Int64(v) => signed_decimal(v as int),
        ValueModel::Float64(_) => p.double_text,
        ValueModel::Str(s) => seq!['N', '\''] + quotes_doubled(s) + seq!['\''],
        ValueModel::Bytes(b) => seq!['0', 'x'] + hex_text(b, true),
    }
}

/// The literals of a list of arguments.
pub open spec fn sql_literals(params: Seq<SqlParam>) -> Seq<Seq<char>> {
    params.map_values(|p: SqlParam| sql_literal(p@))
}

/// Whether `c` is one of the digits `0` to `9`.
pub open spec fn is_digit(c: char) -> bool {
    '0' <= c <= '9'
}

/// Where the run of digits that starts at `i` ends: the first place from `i`
/// on that holds no digit.
pub open spec fn digits_end(s: Seq<char>, i: int) -> int
    decreases s.len() - i,
{
    if 0 <= i < s.len() && is_digit(s[i]) {
        digits_end(s, i + 1)
    } else {
        i
    }
}

/// The number that a run of digits writes in decimal.
pub open spec fn digits_value(s: Seq<char>) -> nat
    decreases s.len(),
{
    if s.len() == 0 {
        0
    } else {
        digits_value(s.drop_last()) * 10 + (s.last() as nat - 48) as nat
    }
}

/// Where the quoted literal ends whose inside starts at `i`: behind the next
/// single quote, or at the end of the text where there is none.
pub open spec fn literal_end(s: Seq<char>, i: int) -> int
    decreases s.len() - i,
{
    if i < 0 || i >= s.len() {
        s.len() as int
    } else if s[i] == '\'' {
        i + 1
    } else {
        literal_end(s, i + 1)
    }
}

/// Whether a placeholder starts at `i`: `@` followed by `p` or `P`.
pub open spec fn placeholder_at(sql: Seq<char>, i: int) -> bool {
    0 <= i && i + 1 < sql.len() && sql[i] == '@' && (sql[i + 1] == 'p' || sql[i + 1] == 'P')
}

/// A run of digits ends at or behind its start, and within the text.
pub proof fn lemma_digits_end_bounds(s: Seq<char>, i: int)
    requires
        0 <= i <= s.len(),
    ensures
        i <= digits_end(s, i) <= s.len(),
    decreases s.len() - i,
{
    if i < s.len() && is_digit(s[i]) {
        lemma_digits_end_bounds(s, i + 1);
    }
}

/// A quoted literal ends behind its start, and within the text.
pub proof fn lemma_literal_end_bounds(s: Seq<char>, i: int)
    requires
        0 <= i <= s.len(),
    ensures
        i <= literal_end(s, i) <= s.len(),
    decreases s.len() - i,
{
    if i < s.len() && s[i] != '\'' {
        lemma_literal_end_bounds(s, i + 1);
    }
}

/// The template from place `i` on, with the placeholders outside quoted
/// literals replaced. `literals[n - 1]` stands for the placeholder `@pn`; a
/// placeholder whose number names no argument stays as it is.
pub open spec fn inlined_from(sql: Seq<char>, i: int, literals: Seq<Seq<char>>) -> Seq<char>
    decreases sql.len() - i,
{
    if i < 0 || i >= sql.len() {
        Seq::<char>::empty()
    } else if placeholder_at(sql, i) {
        let end = digits_end(sql, i + 2);
        let n = digits_value(sql.subrange(i + 2, end));
        if i + 2 <= end <= sql.len() {
            (if 1 <= n <= literals.len() {
                literals[n - 1]
            } else {
                sql.subrange(i, end)
            }) + inlined_from(sql, end, literals)
        } else {
            Seq::<char>::empty()
        }
    } else if sql[i] == '\'' {
        let end = literal_end(sql, i + 1);
        if i + 1 <= end <= sql.len() {
            sql.subrange(i, end) + inlined_from(sql, end, literals)
        } else {
            Seq::<char>::empty()
        }
    } else {
        seq![sql[i]] + inlined_from(sql, i + 1, literals)
    }
}

/// The whole template with its placeholders replaced.
pub open spec fn inlined(sql: Seq<char>, literals: Seq<Seq<char>>) -> Seq<char> {
    inlined_from(sql, 0, literals)
}

/// What `inlined_from` is at a placeholder, the bounds of the run of digits
/// taken for granted.
pub proof fn lemma_inlined_at_placeholder(sql: Seq<char>, i: int, literals: Seq<Seq<char>>)
    requires
        placeholder_at(sql, i),
    ensures
        ({
            let end = digits_end(sql, i + 2);
            let n = digits_value(sql.subrange(i + 2, end));
            &&& i + 2 <= end <= sql.len()
            &&& inlined_from(sql, i, literals) == (if 1 <= n <= literals.len() {
                literals[n - 1]
            } else {
                sql.subrange(i, end)
            }) + inlined_from(sql, end, literals)
        }),
{
    lemma_digits_end_bounds(sql, i + 2);
}

/// What `inlined_from` is at the quote that opens a literal.
pub proof fn lemma_inlined_at_quote(sql: Seq<char>, i: int, literals: Seq<Seq<char>>)
    requires
        0 <= i < sql.len(),
        sql[i] == '\'',
    ensures
        ({
            let end = literal_end(sql, i + 1);
            &&& i + 1 <= end <= sql.len()
            &&& inlined_from(sql, i, literals) == sql.subrange(i, end) + inlined_from(
                sql,
                end,
                literals,
            )
        }),
{
    lemma_literal_end_bounds(sql, i + 1);
}

fn push_quotes_doubled(out: &mut String, s: &str)
    ensures
        final(out)@ == old(out)@ + quotes_doubled(s@),
{
    for c in it: s.chars()
        invariant
            it.seq() == s@,
            out@ == old(out)@ + quotes_doubled(s@.take(it.index() as int)),
    {
        if c == '\'' {
            out.push('\'');
        }
        out.push(c);
        proof {
            let k = it.index() as int;
            assert(s@.take(k + 1).drop_last() =~= s@.take(k));
            assert(out@ =~= old(out)@ + quotes_doubled(s@.take(k + 1)));
        }
    }
    assert(s@.take(s@.len() as int) =~= s@);
}

/// Renders one argument as the SQL literal that stands for it.
pub fn param_to_sql(p: &SqlParam) -> (s: String)
    ensures
        s@ == sql_literal(p@),
{
    let mut s = String::new();
    match &p.value {
        JsValueWrapper::Null => {
            s.push('N');
            s.push('U');
            s.push('L');
            s.push('L');
        },
        JsValueWrapper::Bool(v) => {
            s.push(if *v {
                '1'
            } else {
                '0'
            });
        },
        JsValueWrapper::I64(v) => {
            push_signed_decimal(&mut s, *v as i128);
        },
        JsValueWrapper::F64(_) => {
            s.append(p.double_text.as_str());
        },
        JsValueWrapper::Str(v) => {
            s.push('N');
            s.push('\'');
            push_quotes_doubled(&mut s, v.as_str());
            s.push('\'');
        },
        JsValueWrapper::Bytes(v) => {
            s.push('0');
            s.push('x');
            push_hex(&mut s, v.as_slice(), true);
        },
    }
    assert(s@ =~= sql_literal(p@));
    s
}

/// Reads the run of digits at `start` and tells where it ends and, if the
/// number it writes names one of `count` arguments, which.
fn read_index(chars: &Vec<char>, start: usize, count: usize) -> (r: (usize, Option<usize>))
    requires
        start <= chars@.len(),
    ensures
        r.0 == digits_end(chars@, start as int),
        start <= r.0 <= chars@.len(),
        ({
            let n = digits_value(chars@.subrange(start as int, r.0 as int));
            match r.1 {
                Some(k) => 1 <= n <= count && k == n - 1,
                None => !(1 <= n <= count),
            }
        }),
{
    let mut i: usize = start;
    let mut n: usize = 0;
    let mut beyond: bool = false;
    while i < chars.len() && '0' <= chars[i] && chars[i] <= '9'
        invariant
            start <= i <= chars@.len(),
            digits_end(chars@, i as int) == digits_end(chars@, start as int),
            beyond ==> digits_value(chars@.subrange(start as int, i as int)) > usize::MAX,
            !beyond ==> n == digits_value(chars@.subrange(start as int, i as int)),
        decreases chars@.len() - i,
    {
        let d: usize = (chars[i] as u32 - 48) as usize;
        proof {
            let run = chars@.subrange(start as int, i + 1);
            assert(run.drop_last() =~= chars@.subrange(start as int, i as int));
            assert(run.last() == chars@[i as int]);
        }
        if !beyond {
            if n > (usize::MAX - d) / 10 {
                beyond = true;
            } else {
                n = n * 10 + d;
            }
        }
        i = i + 1;
    }
    if !beyond && 1 <= n && n <= count {
        (i, Some(n - 1))
    } else {
        (i, None)
    }
}

/// Appends `chars[from..to]`.
fn push_range(out: &mut String, chars: &Vec<char>, from: usize, to: usize)
    requires
        from <= to <= chars@.len(),
    ensures
        final(out)@ == old(out)@ + chars@.subrange(from as int, to as int),
{
    let mut i: usize = from;
    while i < to
        invariant
            from <= i <= to <= chars@.len(),
            out@ == old(out)@ + chars@.subrange(from as int, i as int),
        decreases to - i,
    {
        out.push(chars[i]);
        i = i + 1;
        assert(out@ =~= old(out)@ + chars@.subrange(from as int, i as int));
    }
}

/// Finds where the quoted literal ends whose inside starts at `start`.
fn find_literal_end(chars: &Vec<char>, start: usize) -> (end: usize)
    requires
        start <= chars@.len(),
    ensures
        end == literal_end(chars@, start as int),
        start <= end <= chars@.len(),
{
    let mut i: usize = start;
    while i < chars.len() && chars[i] != '\''
        invariant
            start <= i <= chars@.len(),
            literal_end(chars@, i as int) == literal_end(chars@, start as int),
        decreases chars@.len() - i,
    {
        i = i + 1;
    }
    if i < chars.len() {
        i + 1
    } else {
        i
    }
}

/// Replaces the placeholders `@p1`, `@p2`, ... of a query template by the
/// literals of the arguments they name. Text inside single quotes is not
/// touched, and a placeholder that names no argument stays as it is.
pub fn substitute_params(sql: &str, params: &[SqlParam]) -> (out: String)
    ensures
        out@ == inlined(sql@, sql_literals(params@)),
{
    let chars = chars_of(sql);
    let ghost literals = sql_literals(params@);
    let mut out = String::new();
    let mut i: usize = 0;
    while i < chars.len()
        invariant
            i <= chars@.len(),
            chars@ == sql@,
            literals == sql_literals(params@),
            out@ + inlined_from(chars@, i as int, literals) == inlined(chars@, literals),
        decreases chars@.len() - i,
    {
        let ghost before = out@;
        if chars[i] == '@' && i + 1 < chars.len() && (chars[i + 1] == 'p' || chars[i + 1] == 'P') {
            let (end, index) = read_index(&chars, i + 2, params.len());
            proof {
                lemma_inlined_at_placeholder(chars@, i as int, literals);
            }
            match index {
                Some(k) => {
                    let literal = param_to_sql(&params[k]);
                    out.append(literal.as_str());
                },
                None => {
                    push_range(&mut out, &chars, i, end);
                },
            }
            assert(out@ + inlined_from(chars@, end as int, literals) =~= before + inlined_from(
                chars@,
                i as int,
                literals,
            ));
            i = end;
        } else if chars[i] == '\'' {
            let end = find_literal_end(&chars, i + 1);
            proof {
                lemma_inlined_at_quote(chars@, i as int, literals);
            }
            push_range(&mut out, &chars, i, end);
            assert(out@ + inlined_from(chars@, end as int, literals) =~= before + inlined_from(
                chars@,
                i as int,
                literals,
            ));
            i = end;
        } else {
            out.push(chars[i]);
            assert(out@ + inlined_from(chars@, i + 1, literals) =~= before + inlined_from(
                chars@,
                i as int,
                literals,
            ));
            i = i + 1;
        }
    }
    assert(out@ =~= out@ + inlined_from(chars@, i as int, literals));
    out
}

} // verus!
