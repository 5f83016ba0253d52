use vstd::prelude::*;
use vstd::string::StrSliceExecFns;
use vstd::utf8::{encode_scalar, encode_utf8};
use crate::structures::{
    group_model, lemma_group_model, lemma_model_group, lemma_model_num, model, models, operator_of,
    Expression, Operator, Parentheses, Tree,
};

verus! {

broadcast use vstd::utf8::char_is_scalar;

#[derive(Debug, PartialEq)]
pub enum ParseError {
    ExceptedExpr(Option<char>, usize),
    ExceptedOp(char, usize),
    InvalidCloseParenthese(usize),
    UncloseParentheses,
    Overflow(String),
}

/// A parse error as plain values.
pub enum Failure {
    ExceptedExpr(Option<char>, int),
    ExceptedOp(char, int),
    InvalidCloseParenthese(int),
    UncloseParentheses,
    Overflow(Seq<char>),
}

impl View for ParseError {
    type V = Failure;

    open spec fn view(&self) -> Failure {
        match self {
            ParseError::ExceptedExpr(c, n) => Failure::ExceptedExpr(*c, *n as int),
            ParseError::ExceptedOp(c, n) => Failure::ExceptedOp(*c, *n as int),
            ParseError::InvalidCloseParenthese(n) => Failure::InvalidCloseParenthese(*n as int),
            ParseError::UncloseParentheses => Failure::UncloseParentheses,
            ParseError::Overflow(t) => Failure::Overflow(t@),
        }
    }
}

/// Whether `char::is_whitespace` holds of `c`.
pub uninterp spec fn white_space(c: char) -> bool;

/// The byte offset of the `p`-th character of `s` in its UTF-8 encoding.
pub open spec fn byte_offset(s: Seq<char>, p: int) -> int {
    encode_utf8(s.take(p)).len() as int
}

pub open spec fn is_digit(c: char) -> bool {
    '0' as u32 <= c as u32 <= '9' as u32
}

/// The number of whitespace characters that start at `p`.
pub open spec fn ws_len(s: Seq<char>, p: int) -> nat
    decreases s.len() - p,
{
    if 0 <= p < s.len() && white_space(s[p]) {
        1 + ws_len(s, p + 1)
    } else {
        0
    }
}

/// The end of the run of ASCII digits that starts at `p`.
pub open spec fn digits_end(s: Seq<char>, p: int) -> int
    decreases s.len() - p,
{
    if 0 <= p < s.len() && is_digit(s[p]) {
        digits_end(s, p + 1)
    } else {
        p
    }
}

/// The number written in decimal by the digits `d`.
pub open spec fn decimal(d: Seq<char>) -> nat
    decreases d.len(),
{
    if d.len() == 0 {
        0
    } else {
        decimal(d.drop_last()) * 10 + (d.last() as u32 - '0' as u32) as nat
    }
}

/// How many characters of `s` are left from `p` on.
pub open spec fn remaining(s: Seq<char>, p: int) -> nat {
    if p < s.len() {
        (s.len() - p) as nat
    } else {
        0
    }
}

/// The position just past the character at `p` and the whitespace after it.
pub open spec fn after(s: Seq<char>, p: int) -> int {
    p + 1 + ws_len(s, p + 1)
}

/// Reads one operand at `p`: a number or a parenthesized group. On success,
/// gives its shape and the position after it and the whitespace that follows.
pub open spec fn read_operand(s: Seq<char>, p: int) -> Result<(Tree, int), Failure>
    decreases remaining(s, p), 1nat,
{
    if p < 0 || p >= s.len() {
        Err(Failure::ExceptedExpr(None, byte_offset(s, p)))
    } else if is_digit(s[p]) {
        let q = digits_end(s, p);
        let text = s.subrange(p, q);
        if decimal(text) <= u64::MAX {
            Ok((Tree::Num(decimal(text) as u64), q + ws_len(s, q)))
        } else {
            Err(Failure::Overflow(text))
        }
    } else if s[p] == '(' {
        read_group(s, after(s, p), false)
    } else {
        Err(Failure::ExceptedExpr(Some(s[p]), byte_offset(s, p)))
    }
}

/// Reads a group at `p`: operands separated by operators, closed by `)`
/// unless `outermost`, where the end of the text closes it.
pub open spec fn read_group(s: Seq<char>, p: int, outermost: bool) -> Result<(Tree, int), Failure>
    decreases remaining(s, p), 2nat,
{
    match read_operand(s, p) {
        Err(e) => Err(e),
        // `p < q` always holds (`lemma_operand_advances`); it bounds the recursion.
        Ok((e, q)) => if p < q {
            read_rest(s, q, outermost, seq![e], seq![])
        } else {
            Err(Failure::UncloseParentheses)
        },
    }
}

/// Reads the rest of a group at `p`, whose operands and operators so far are
/// `es` and `os`.
pub open spec fn read_rest(
    s: Seq<char>,
    p: int,
    outermost: bool,
    es: Seq<Tree>,
    os: Seq<Operator>,
) -> Result<(Tree, int), Failure>
    decreases remaining(s, p), 0nat,
{
    if p < 0 || p >= s.len() {
        if outermost {
            Ok((Tree::Group(es, os), p))
        } else {
            Err(Failure::UncloseParentheses)
        }
    } else {
        match operator_of(s[p]) {
            Some(op) => match read_operand(s, after(s, p)) {
                Err(e) => Err(e),
                // `p < q` always holds (`lemma_operand_advances`).
                Ok((e, q)) => if p < q {
                    read_rest(s, q, outermost, es.push(e), os.push(op))
                } else {
                    Err(Failure::UncloseParentheses)
                },
            },
            None => if s[p] == ')' {
                if outermost {
                    Err(Failure::InvalidCloseParenthese(byte_offset(s, p)))
                } else {
                    Ok((Tree::Group(es, os), after(s, p)))
                }
            } else {
                Err(Failure::ExceptedOp(s[p], byte_offset(s, p)))
            },
        }
    }
}

/// The result of parsing the whole text `s`.
pub open spec fn parse_spec(s: Seq<char>) -> Result<Tree, Failure> {
    match read_group(s, ws_len(s, 0) as int, true) {
        Err(e) => Err(e),
        Ok((t, _)) => Ok(t),
    }
}

proof fn lemma_digits_end(s: Seq<char>, p: int)
    ensures
        digits_end(s, p) >= p,
    decreases s.len() - p,
{
    if 0 <= p < s.len() && is_digit(s[p]) {
        lemma_digits_end(s, p + 1);
    }
}

/// An operand that is read takes at least one character, so the guards
/// `p < q` in `read_group` and `read_rest` always hold.
pub proof fn lemma_operand_advances(s: Seq<char>, p: int)
    ensures
        read_operand(s, p) matches Ok((_, q)) ==> p < q,
    decreases remaining(s, p), 1nat,
{
    if 0 <= p < s.len() {
        if is_digit(s[p]) {
            lemma_digits_end(s, p + 1);
        } else if s[p] == '(' {
            lemma_group_advances(s, after(s, p), false);
        }
    }
}

proof fn lemma_group_advances(s: Seq<char>, p: int, outermost: bool)
    ensures
        read_group(s, p, outermost) matches Ok((_, q)) ==> p < q,
    decreases remaining(s, p), 2nat,
{
    lemma_operand_advances(s, p);
    if let Ok((e, q)) = read_operand(s, p) {
        if p < q {
            lemma_rest_advances(s, q, outermost, seq![e], seq![]);
        }
    }
}

proof fn lemma_rest_advances(s: Seq<char>, p: int, outermost: bool, es: Seq<Tree>, os: Seq<Operator>)
    ensures
        read_rest(s, p, outermost, es, os) matches Ok((_, q)) ==> p <= q,
    decreases remaining(s, p), 0nat,
{
    if 0 <= p < s.len() {
        if let Some(op) = operator_of(s[p]) {
            if let Ok((e, q)) = read_operand(s, after(s, p)) {
                if p < q {
                    lemma_rest_advances(s, q, outermost, es.push(e), os.push(op));
                }
            }
        }
    }
}

/// A text whose first token is a run of digits too large for `u64` fails to
/// parse, and the error carries that run as written.
pub proof fn lemma_literal_overflow(s: Seq<char>)
    requires
        ws_len(s, 0) < s.len(),
        is_digit(s[ws_len(s, 0) as int]),
        decimal(s.subrange(ws_len(s, 0) as int, digits_end(s, ws_len(s, 0) as int))) > u64::MAX,
    ensures
        parse_spec(s) == Err::<Tree, Failure>(
            Failure::Overflow(s.subrange(ws_len(s, 0) as int, digits_end(s, ws_len(s, 0) as int))),
        ),
{
}

proof fn lemma_encode_concat(a: Seq<char>, b: Seq<char>)
    ensures
        encode_utf8(a + b) == encode_utf8(a) + encode_utf8(b),
    decreases a.len(),
{
    if a.len() == 0 {
        assert(a + b =~= b);
        assert(encode_utf8(a) + encode_utf8(b) =~= encode_utf8(b));
    } else {
        assert((a + b).drop_first() =~= a.drop_first() + b);
        lemma_encode_concat(a.drop_first(), b);
        assert(encode_utf8(a + b) =~= encode_utf8(a) + encode_utf8(b));
    }
}

/// Offsets grow by each character's encoded length and stay within the text.
proof fn lemma_offset_step(s: Seq<char>, p: int)
    requires
        0 <= p < s.len(),
    ensures
        byte_offset(s, p + 1) == byte_offset(s, p) + encode_scalar(s[p] as u32).len(),
        byte_offset(s, p + 1) <= encode_utf8(s).len(),
{
    assert(s.take(p + 1) =~= s.take(p) + seq![s[p]]);
    lemma_encode_concat(s.take(p), seq![s[p]]);
    let one = seq![s[p]];
    assert(one.drop_first() =~= Seq::<char>::empty());
    assert(encode_utf8(one.drop_first()) =~= Seq::<u8>::empty());
    assert(encode_utf8(one) =~= encode_scalar(one[0] as u32));
    assert(s =~= s.take(p + 1) + s.skip(p + 1));
    lemma_encode_concat(s.take(p + 1), s.skip(p + 1));
}

/// The number of bytes that UTF-8 takes for `c`.
fn utf8_len(c: char) -> (r: usize)
    ensures
        r == encode_scalar(c as u32).len(),
{
    let u = c as u32;
    if u <= 0x7f {
        1
    } else if u <= 0x7ff {
        2
    } else if u <= 0xffff {
        3
    } else {
        4
    }
}

fn is_ascii_digit(c: char) -> (r: bool)
    ensures
        r == is_digit(c),
{
    let u = c as u32;
    48 <= u && u <= 57
}

fn skip_whitespace(text: &Vec<char>, pos: &mut usize, offset: &mut usize)
    requires
        *old(pos) <= text@.len(),
        *old(offset) == byte_offset(text@, *old(pos) as int),
        encode_utf8(text@).len() <= usize::MAX,
    ensures
        *final(pos) == *old(pos) + ws_len(text@, *old(pos) as int),
        *final(pos) <= text@.len(),
        *final(offset) == byte_offset(text@, *final(pos) as int),
{
    let ghost p0 = *pos;
    while *pos < text.len() && is_white(text[*pos])
        invariant
            p0 <= *pos <= text@.len(),
            *offset == byte_offset(text@, *pos as int),
            encode_utf8(text@).len() <= usize::MAX,
            ws_len(text@, p0 as int) == (*pos - p0) + ws_len(text@, *pos as int),
        decreases text@.len() - *pos,
    {
        proof {
            lemma_offset_step(text@, *pos as int);
        }
        *offset = *offset + utf8_len(text[*pos]);
        *pos = *pos + 1;
    }
}

/// Steps over the character at the cursor and the whitespace after it.
fn next(text: &Vec<char>, pos: &mut usize, offset: &mut usize)
    requires
        *old(pos) < text@.len(),
        *old(offset) == byte_offset(text@, *old(pos) as int),
        encode_utf8(text@).len() <= usize::MAX,
    ensures
        *final(pos) == after(text@, *old(pos) as int),
        *final(pos) <= text@.len(),
        *final(offset) == byte_offset(text@, *final(pos) as int),
{
    let n_chars = text.len();
    assert(*pos + 1 <= n_chars);
    proof {
        lemma_offset_step(text@, *pos as int);
    }
    *offset = *offset + utf8_len(text[*pos]);
    *pos = *pos + 1;
    skip_whitespace(text, pos, offset);
}

/// Reads one operand at the cursor: a number, or a group in parentheses.
fn parse_expr(input: &str, text: &Vec<char>, pos: &mut usize, offset: &mut usize) -> (r: Result<Expression, ParseError>)
    requires
        text@ == input@,
        *old(pos) <= text@.len(),
        *old(offset) == byte_offset(text@, *old(pos) as int),
        encode_utf8(text@).len() <= usize::MAX,
    ensures
        *final(pos) <= text@.len(),
        *final(offset) == byte_offset(text@, *final(pos) as int),
        match r {
            Ok(e) => *old(pos) < *final(pos) && read_operand(text@, *old(pos) as int)
                == Ok::<(Tree, int), Failure>((model(e), *final(pos) as int)),
            Err(e) => read_operand(text@, *old(pos) as int) == Err::<(Tree, int), Failure>(e@),
        },
    decreases remaining(text@, *old(pos) as int), 1nat,
{
    let ghost s = text@;
    if *pos >= text.len() {
        return Err(ParseError::ExceptedExpr(None, *offset));
    }
    let c = text[*pos];
    if is_ascii_digit(c) {
        let start = *pos;
        let mut value: u64 = 0;
        let mut fits: bool = true;
        while *pos < text.len() && is_ascii_digit(text[*pos])
            invariant
                start <= *pos <= s.len(),
                s == text@,
                *offset == byte_offset(s, *pos as int),
                encode_utf8(s).len() <= usize::MAX,
                digits_end(s, start as int) == digits_end(s, *pos as int),
                fits ==> value == decimal(s.subrange(start as int, *pos as int)),
                !fits ==> decimal(s.subrange(start as int, *pos as int)) > u64::MAX,
            decreases s.len() - *pos,
        {
            let ghost before = decimal(s.subrange(start as int, *pos as int));
            let d = (text[*pos] as u32 - 48) as u64;
            assert(s.subrange(start as int, *pos + 1).drop_last() =~= s.subrange(start as int, *pos as int));
            assert(decimal(s.subrange(start as int, *pos + 1)) == before * 10 + d);
            if fits {
                match value.checked_mul(10) {
                    Some(m) => match m.checked_add(d) {
                        Some(v) => {
                            value = v;
                        },
                        None => {
                            fits = false;
                        },
                    },
                    None => {
                        fits = false;
                    },
                }
            } else {
                assert(before * 10 + d > u64::MAX) by (nonlinear_arith)
                    requires
                        before > u64::MAX,
                        d >= 0,
                ;
            }
            proof {
                lemma_offset_step(s, *pos as int);
            }
            *offset = *offset + 1;
            *pos = *pos + 1;
        }
        if fits {
            skip_whitespace(text, pos, offset);
            proof {
                lemma_model_num(value);
            }
            Ok(Expression::Num(value))
        } else {
            let literal = input.substring_char(start, *pos);
            Err(ParseError::Overflow(literal.to_owned()))
        }
    } else if c == '(' {
        next(text, pos, offset);
        match parse_paren(input, text, pos, offset, false) {
            Ok(p) => {
                proof {
                    lemma_model_group(p);
                }
                Ok(Expression::Parentheses(p))
            },
            Err(e) => Err(e),
        }
    } else {
        Err(ParseError::ExceptedExpr(Some(c), *offset))
    }
}

/// Reads a group at the cursor, up to its `)`, or, when `outermost`, up to
/// the end of the text.
fn parse_paren(input: &str, text: &Vec<char>, pos: &mut usize, offset: &mut usize, outermost: bool) -> (r: Result<Parentheses, ParseError>)
    requires
        text@ == input@,
        *old(pos) <= text@.len(),
        *old(offset) == byte_offset(text@, *old(pos) as int),
        encode_utf8(text@).len() <= usize::MAX,
    ensures
        *final(pos) <= text@.len(),
        *final(offset) == byte_offset(text@, *final(pos) as int),
        match r {
            Ok(g) => read_group(text@, *old(pos) as int, outermost)
                == Ok::<(Tree, int), Failure>((group_model(g), *final(pos) as int)) && *old(pos) < *final(pos),
            Err(e) => read_group(text@, *old(pos) as int, outermost) == Err::<(Tree, int), Failure>(e@),
        },
    decreases remaining(text@, *old(pos) as int), 2nat,
{
    let ghost s = text@;
    let ghost p0 = *pos;
    let first = match parse_expr(input, text, pos, offset) {
        Ok(e) => e,
        Err(e) => {
            return Err(e);
        },
    };
    let mut exprs: Vec<Expression> = vec![first];
    let mut ops: Vec<Operator> = Vec::new();
    assert(models(exprs@) =~= seq![model(first)]);
    assert(ops@ =~= Seq::<Operator>::empty());
    while *pos < text.len()
        invariant
            s == text@,
            text@ == input@,
            p0 == *old(pos),
            p0 < *pos <= s.len(),
            *offset == byte_offset(s, *pos as int),
            encode_utf8(s).len() <= usize::MAX,
            exprs.len() == ops.len() + 1,
            read_group(s, p0 as int, outermost) == read_rest(s, *pos as int, outermost, models(exprs@), ops@),
        decreases s.len() - *pos,
    {
        let c = text[*pos];
        match Operator::from_char(c) {
            Some(op) => {
                next(text, pos, offset);
                let ghost es = models(exprs@);
                let ghost os = ops@;
                assert(remaining(s, *pos as int) < remaining(s, p0 as int));
                match parse_expr(input, text, pos, offset) {
                    Ok(e) => {
                        exprs.push(e);
                        ops.push(op);
                        assert(models(exprs@) =~= es.push(model(e)));
                        assert(ops@ =~= os.push(op));
                    },
                    Err(e) => {
                        return Err(e);
                    },
                }
            },
            None => {
                if c == ')' {
                    if !outermost {
                        next(text, pos, offset);
                        let g = Parentheses::new(exprs, ops);
                        proof {
                            lemma_group_model(g);
                        }
                        return Ok(g);
                    } else {
                        return Err(ParseError::InvalidCloseParenthese(*offset));
                    }
                } else {
                    return Err(ParseError::ExceptedOp(c, *offset));
                }
            },
        }
    }
    if outermost {
        let g = Parentheses::new(exprs, ops);
        proof {
            lemma_group_model(g);
        }
        Ok(g)
    } else {
        Err(ParseError::UncloseParentheses)
    }
}

/// Parses one line into an expression tree, or reports where it fails.
pub fn parse(input: &str) -> (r: Result<Expression, ParseError>)
    ensures
        match r {
            Ok(e) => parse_spec(input@) == Ok::<Tree, Failure>(model(e)),
            Err(e) => parse_spec(input@) == Err::<Tree, Failure>(e@),
        },
{
    let text = chars_of(input);
    let n_bytes = input.as_bytes().len();
    assert(n_bytes == encode_utf8(input@).len());
    let mut pos: usize = 0;
    let mut offset: usize = 0;
    proof {
        assert(text@.take(0) =~= Seq::<char>::empty());
    }
    skip_whitespace(&text, &mut pos, &mut offset);
    match parse_paren(input, &text, &mut pos, &mut offset, true) {
        Ok(p) => {
            proof {
                lemma_model_group(p);
            }
            Ok(Expression::Parentheses(p))
        },
        Err(e) => Err(e),
    }
}

/// Relies on `char::is_whitespace`.
#[verifier::external_body]
fn is_white(c: char) -> (r: bool)
    ensures
        r == white_space(c),
{
    c.is_whitespace()
}

/// Relies on `str::chars`: the characters of `s`, in order.
#[verifier::external_body]
fn chars_of(s: &str) -> (r: Vec<char>)
    ensures
        r@ == s@,
{
    s.chars().collect()
}

} // verus!
