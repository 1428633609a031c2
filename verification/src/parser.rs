//! The line-parsing front end: the whitespace tokenizer, the token
//! classifier (operator first, then integer literal, then boolean
//! literal), and the evaluator that folds one line of tokens into the
//! stack.

use vstd::prelude::*;

use crate::rpn::Elt;
use crate::rpn::Error;
use crate::rpn::Op;
use crate::rpn::Stack;
use crate::rpn::eval_rel;

verus! {

/// Whether `c` separates tokens: a blank, tab, newline or carriage
/// return.
pub open spec fn is_space_char(c: char) -> bool {
    c == ' ' || c == '\t' || c == '\n' || c == '\r'
}

/// The tokens of `s` when the characters of `cur` have already been
/// read as the begun, still-open token.
pub open spec fn tokens_acc(s: Seq<char>, cur: Seq<char>) -> Seq<Seq<char>>
    decreases s.len(),
{
    if s.len() == 0 {
        if cur.len() == 0 {
            Seq::empty()
        } else {
            seq![cur]
        }
    } else if is_space_char(s[0]) {
        if cur.len() == 0 {
            tokens_acc(s.drop_first(), Seq::empty())
        } else {
            seq![cur] + tokens_acc(s.drop_first(), Seq::empty())
        }
    } else {
        tokens_acc(s.drop_first(), cur.push(s[0]))
    }
}

/// The whitespace-separated tokens of one line, in left-to-right
/// order; no token is empty, and an all-whitespace line has none.
pub open spec fn tokens_of(s: Seq<char>) -> Seq<Seq<char>> {
    tokens_acc(s, Seq::empty())
}

/// The operator denoted by a token, if any.
pub open spec fn op_of_token(t: Seq<char>) -> Option<Op> {
    if t == "+"@ {
        Some(Op::Add)
    } else if t == "~"@ {
        Some(Op::Neg)
    } else if t == "<->"@ {
        Some(Op::Swap)
    } else if t == "="@ {
        Some(Op::Eq)
    } else if t == "#"@ {
        Some(Op::Rand)
    } else if t == "quit"@ {
        Some(Op::Quit)
    } else {
        None
    }
}

/// Whether `c` is a decimal digit.
pub open spec fn is_digit(c: char) -> bool {
    '0' <= c && c <= '9'
}

/// The numeric value of a decimal digit.
pub open spec fn digit_val(c: char) -> int {
    c as int - '0' as int
}

/// Whether every character of `s` is a decimal digit.
pub open spec fn all_digits(s: Seq<char>) -> bool {
    forall|i: int| 0 <= i < s.len() ==> is_digit(s[i])
}

/// The value of a string of decimal digits, most significant first.
pub open spec fn digits_val(s: Seq<char>) -> int
    decreases s.len(),
{
    if s.len() == 0 {
        0
    } else {
        digits_val(s.drop_last()) * 10 + digit_val(s.last())
    }
}

/// The digits of an integer token: everything after an optional sign.
pub open spec fn int_body(s: Seq<char>) -> Seq<char> {
    if s.len() > 0 && (s[0] == '+' || s[0] == '-') {
        s.drop_first()
    } else {
        s
    }
}

/// The sign of an integer token.
pub open spec fn int_sign(s: Seq<char>) -> int {
    if s.len() > 0 && s[0] == '-' {
        -1
    } else {
        1
    }
}

/// The value denoted by an integer token.
pub open spec fn int_literal_val(s: Seq<char>) -> int {
    int_sign(s) * digits_val(int_body(s))
}

/// Whether `s` is an integer literal the calculator accepts: an
/// optional sign, at least one digit, and a value that fits in `i32`.
pub open spec fn is_int_literal(s: Seq<char>) -> bool {
    &&& int_body(s).len() > 0
    &&& all_digits(int_body(s))
    &&& i32::MIN <= int_literal_val(s) <= i32::MAX
}

/// The value denoted by a token, if any: an integer literal first,
/// then the two boolean literals.
pub open spec fn value_of_token(t: Seq<char>) -> Option<Elt> {
    if is_int_literal(t) {
        Some(Elt::Int(int_literal_val(t) as i32))
    } else if t == "true"@ {
        Some(Elt::Bool(true))
    } else if t == "false"@ {
        Some(Elt::Bool(false))
    } else {
        None
    }
}

/// Character-for-character equality of two string slices.
pub(crate) fn str_eq(a: &str, b: &str) -> (r: bool)
    ensures
        r == (a@ == b@),
{
    let na = a.unicode_len();
    let nb = b.unicode_len();
    if na != nb {
        return false;
    }
    let mut i: usize = 0;
    while i < na
        invariant
            na == a@.len(),
            na == b@.len(),
            0 <= i <= na,
            forall|j: int| 0 <= j < i ==> a@[j] == b@[j],
        decreases na - i,
    {
        let ca = a.get_char(i);
        let cb = b.get_char(i);
        if ca != cb {
            return false;
        }
        i += 1;
    }
    proof {
        assert(a@ =~= b@);
    }
    true
}

/// A string of digits has a non-negative value.
proof fn lemma_digits_val_nonneg(s: Seq<char>)
    requires
        all_digits(s),
    ensures
        digits_val(s) >= 0,
    decreases s.len(),
{
    if s.len() > 0 {
        lemma_digits_val_nonneg(s.drop_last());
    }
}

/// Reading further digits never shrinks the value read so far.
proof fn lemma_digits_val_prefix_le(s: Seq<char>, k: int)
    requires
        all_digits(s),
        0 <= k <= s.len(),
    ensures
        digits_val(s.take(k)) <= digits_val(s),
    decreases s.len() - k,
{
    if k < s.len() {
        lemma_digits_val_prefix_le(s, k + 1);
        lemma_digits_val_nonneg(s.take(k));
        assert(s.take(k + 1).drop_last() =~= s.take(k));
        assert(all_digits(s.take(k)));
        assert(digits_val(s.take(k + 1)) == digits_val(s.take(k)) * 10 + digit_val(s[k]));
    } else {
        assert(s.take(k) =~= s);
    }
}

/// Parses a decimal integer literal in the way the classifier defines
/// it: an optional sign, digits only, and a value within `i32`.
fn parse_int(s: &str) -> (r: Option<i32>)
    ensures
        (match r {
            Some(v) => is_int_literal(s@) && v as int == int_literal_val(s@),
            None => !is_int_literal(s@),
        }),
{
    let n = s.unicode_len();
    if n == 0 {
        return None;
    }
    let c0 = s.get_char(0);
    let neg: bool = c0 == '-';
    let start: usize = if c0 == '-' || c0 == '+' {
        1
    } else {
        0
    };
    proof {
        assert(int_body(s@) =~= s@.subrange(start as int, n as int));
    }
    if start == n {
        return None;
    }
    let ghost body: Seq<char> = s@.subrange(start as int, n as int);
    let mut i: usize = start;
    let mut acc: i64 = 0;
    while i < n
        invariant
            n == s@.len(),
            start <= i <= n,
            start < n,
            body == s@.subrange(start as int, n as int),
            body == int_body(s@),
            body.len() == n - start,
            neg == (s@[0] == '-'),
            all_digits(body.take(i - start)),
            acc == digits_val(body.take(i - start)),
            0 <= acc <= 0x8000_0000,
        decreases n - i,
    {
        let c = s.get_char(i);
        if !(c >= '0' && c <= '9') {
            proof {
                assert(!is_digit(body[i - start]));
            }
            return None;
        }
        let d: u32 = c as u32 - '0' as u32;
        proof {
            assert(body.take(i - start + 1).drop_last() =~= body.take(i - start));
            assert(body.take(i - start + 1).last() == body[i - start]);
            assert(d == digit_val(body[i - start]));
        }
        acc = acc * 10 + (d as i64);
        if acc > 0x8000_0000 {
            proof {
                if is_int_literal(s@) {
                    lemma_digits_val_prefix_le(body, i - start + 1);
                    lemma_digits_val_nonneg(body);
                    assert(false);
                }
            }
            return None;
        }
        i += 1;
    }
    proof {
        assert(body.take(n - start) =~= body);
        assert(acc == digits_val(body));
    }
    if neg {
        if acc == 0x8000_0000 {
            Some(i32::MIN)
        } else {
            Some(-(acc as i32))
        }
    } else {
        if acc > 0x7FFF_FFFF {
            proof {
                assert(int_literal_val(s@) == digits_val(body));
            }
            None
        } else {
            Some(acc as i32)
        }
    }
}

/// Splits one line into its whitespace-separated tokens, left to
/// right; runs of whitespace, leading or trailing, produce nothing.
pub fn tokenize(line: &str) -> (tokens: Vec<String>)
    ensures
        tokens.deep_view() == tokens_of(line@),
{
    let n = line.unicode_len();
    let mut tokens: Vec<String> = Vec::new();
    let mut start: usize = 0;
    let mut in_tok: bool = false;
    let mut i: usize = 0;
    proof {
        assert(line@.skip(0) =~= line@);
        assert(tokens.deep_view() + tokens_acc(line@, Seq::empty()) =~= tokens_acc(
            line@,
            Seq::empty(),
        ));
    }
    while i < n
        invariant
            n == line@.len(),
            0 <= i <= n,
            in_tok ==> start < i,
            tokens_of(line@) == tokens.deep_view() + tokens_acc(
                line@.skip(i as int),
                if in_tok {
                    line@.subrange(start as int, i as int)
                } else {
                    Seq::empty()
                },
            ),
        decreases n - i,
    {
        let ghost cur: Seq<char> = if in_tok {
            line@.subrange(start as int, i as int)
        } else {
            Seq::empty()
        };
        let c = line.get_char(i);
        proof {
            assert(line@.skip(i as int)[0] == c);
            assert(line@.skip(i as int).drop_first() =~= line@.skip(i as int + 1));
        }
        if c == ' ' || c == '\t' || c == '\n' || c == '\r' {
            if in_tok {
                let t = line.substring_char(start, i).to_owned();
                let ghost td = tokens.deep_view();
                tokens.push(t);
                proof {
                    assert(tokens.deep_view() =~= td.push(cur));
                    assert(td.push(cur) =~= td + seq![cur]);
                    assert((td + seq![cur]) + tokens_acc(line@.skip(i as int + 1), Seq::empty())
                        =~= td + (seq![cur] + tokens_acc(
                        line@.skip(i as int + 1),
                        Seq::empty(),
                    )));
                }
                in_tok = false;
            }
        } else {
            if !in_tok {
                start = i;
                in_tok = true;
            }
            proof {
                assert(line@.subrange(start as int, i as int + 1) =~= cur.push(c));
            }
        }
        i += 1;
    }
    proof {
        assert(line@.skip(n as int) =~= Seq::<char>::empty());
    }
    if in_tok {
        let t = line.substring_char(start, n).to_owned();
        let ghost cur: Seq<char> = line@.subrange(start as int, n as int);
        let ghost td = tokens.deep_view();
        tokens.push(t);
        proof {
            assert(tokens.deep_view() =~= td.push(cur));
            assert(td.push(cur) =~= td + seq![cur]);
        }
    } else {
        proof {
            assert(tokens.deep_view() + Seq::<Seq<char>>::empty() =~= tokens.deep_view());
        }
    }
    tokens
}

/// Classifies a value token: an integer literal, or `true` or `false`;
/// anything else is a syntax error.
pub fn get_value(token: &str) -> (r: Result<Elt, Error>)
    ensures
        (match value_of_token(token@) {
            Some(v) => r == Ok::<Elt, Error>(v),
            None => r == Err::<Elt, Error>(Error::Syntax),
        }),
{
    if let Some(v) = parse_int(token) {
        Ok(Elt::Int(v))
    } else if str_eq(token, "true") {
        Ok(Elt::Bool(true))
    } else if str_eq(token, "false") {
        Ok(Elt::Bool(false))
    } else {
        Err(Error::Syntax)
    }
}

/// How evaluating a sequence of tokens relates the stack before
/// (`pre`) and after (`post`), and the reported result: each token is
/// classified (operator first, then value literal) and folded into the
/// stack in order; the first failure stops the line, and already
/// committed stack mutations stay. An exhausted token list reports the
/// last step's success.
pub open spec fn line_rel(
    toks: Seq<Seq<char>>,
    pre: Seq<Elt>,
    post: Seq<Elt>,
    r: Result<(), Error>,
) -> bool
    decreases toks.len(),
{
    if toks.len() == 0 {
        post == pre && r == Ok::<(), Error>(())
    } else {
        match op_of_token(toks[0]) {
            Some(op) => exists|mid: Seq<Elt>, r1: Result<(), Error>|
                {
                    &&& #[trigger] eval_rel(pre, op, mid, r1)
                    &&& match r1 {
                        Ok(_) => line_rel(toks.drop_first(), mid, post, r),
                        Err(e) => post == mid && r == Err::<(), Error>(e),
                    }
                },
            None => match value_of_token(toks[0]) {
                Some(v) => line_rel(toks.drop_first(), pre.push(v), post, r),
                None => post == pre && r == Err::<(), Error>(Error::Syntax),
            },
        }
    }
}

/// Evaluating a first run of tokens to completion and then a second
/// run is the same as evaluating their concatenation.
proof fn lemma_line_rel_concat(
    a: Seq<Seq<char>>,
    b: Seq<Seq<char>>,
    s0: Seq<Elt>,
    s1: Seq<Elt>,
    s2: Seq<Elt>,
    r: Result<(), Error>,
)
    requires
        line_rel(a, s0, s1, Ok(())),
        line_rel(b, s1, s2, r),
    ensures
        line_rel(a + b, s0, s2, r),
    decreases a.len(),
{
    if a.len() == 0 {
        assert(a + b =~= b);
    } else {
        let t = a[0];
        assert((a + b)[0] == t);
        assert((a + b).drop_first() =~= a.drop_first() + b);
        match op_of_token(t) {
            Some(op) => {
                let (mid, r1) = choose|mid: Seq<Elt>, r1: Result<(), Error>|
                    {
                        &&& #[trigger] eval_rel(s0, op, mid, r1)
                        &&& match r1 {
                            Ok(_) => line_rel(a.drop_first(), mid, s1, Ok(())),
                            Err(e) => s1 == mid && Ok::<(), Error>(()) == Err::<(), Error>(e),
                        }
                    };
                assert(r1 is Ok);
                lemma_line_rel_concat(a.drop_first(), b, mid, s1, s2, r);
                assert(eval_rel(s0, op, mid, r1) && match r1 {
                    Ok(_) => line_rel((a + b).drop_first(), mid, s2, r),
                    Err(e) => s2 == mid && r == Err::<(), Error>(e),
                });
            },
            None => {
                match value_of_token(t) {
                    Some(v) => {
                        lemma_line_rel_concat(a.drop_first(), b, s0.push(v), s1, s2, r);
                    },
                    None => {},
                }
            },
        }
    }
}

/// Evaluates one line against the stack: tokenizes it, folds every
/// token in order into the stack, and stops at the first failure,
/// keeping the mutations already made. A line without tokens reports
/// a syntax error and leaves the stack alone.
pub fn evaluate_line(stack: &mut Stack, buf: &String) -> (r: Result<(), Error>)
    ensures
        tokens_of(buf@).len() == 0 ==> final(stack)@ == old(stack)@ && r == Err::<(), Error>(
            Error::Syntax,
        ),
        tokens_of(buf@).len() > 0 ==> line_rel(tokens_of(buf@), old(stack)@, final(stack)@, r),
{
    let toks = tokenize(buf.as_str());
    let ghost tseq: Seq<Seq<char>> = tokens_of(buf@);
    if toks.len() == 0 {
        proof {
            assert(tseq.len() == 0);
        }
        return Err(Error::Syntax);
    }
    let mut idx: usize = 0;
    while idx < toks.len()
        invariant
            toks.deep_view() == tseq,
            toks@.len() == tseq.len(),
            0 <= idx <= toks.len(),
            tseq == tokens_of(buf@),
            tseq.len() > 0,
            line_rel(tseq.take(idx as int), old(stack)@, stack@, Ok(())),
        decreases toks.len() - idx,
    {
        let ghost pre_step: Seq<Elt> = stack@;
        proof {
            assert(toks.deep_view()[idx as int] == toks@[idx as int]@);
            assert(tseq.skip(idx as int)[0] == tseq[idx as int]);
            assert(tseq.skip(idx as int).drop_first() =~= tseq.skip(idx as int + 1));
            assert(tseq.take(idx as int) + tseq.skip(idx as int) =~= tseq);
            assert(tseq.take(idx as int + 1).drop_last() =~= tseq.take(idx as int));
            assert(tseq.take(idx as int) + seq![tseq[idx as int]] =~= tseq.take(idx as int + 1));
        }
        let tok = &toks[idx];
        match get_operation(tok.as_str()) {
            Ok(op) => {
                let res = stack.eval(op);
                match res {
                    Ok(_) => {
                        proof {
                            assert(seq![tseq[idx as int]].drop_first() =~= Seq::<Seq<char>>::empty());
                            assert(line_rel(Seq::<Seq<char>>::empty(), stack@, stack@, Ok::<(), Error>(())));
                            assert(eval_rel(pre_step, op, stack@, Ok::<(), Error>(())));
                            assert(line_rel(seq![tseq[idx as int]], pre_step, stack@, Ok(())));
                            lemma_line_rel_concat(
                                tseq.take(idx as int),
                                seq![tseq[idx as int]],
                                old(stack)@,
                                pre_step,
                                stack@,
                                Ok(()),
                            );
                        }
                    },
                    Err(e) => {
                        proof {
                            assert(line_rel(tseq.skip(idx as int), pre_step, stack@, Err(e)));
                            lemma_line_rel_concat(
                                tseq.take(idx as int),
                                tseq.skip(idx as int),
                                old(stack)@,
                                pre_step,
                                stack@,
                                Err(e),
                            );
                        }
                        return Err(e);
                    },
                }
            },
            Err(_) => {
                match get_value(tok.as_str()) {
                    Ok(v) => {
                        let _ = stack.push(v);
                        proof {
                            assert(seq![tseq[idx as int]].drop_first() =~= Seq::<Seq<char>>::empty());
                            assert(line_rel(Seq::<Seq<char>>::empty(), stack@, stack@, Ok::<(), Error>(())));
                            assert(line_rel(seq![tseq[idx as int]], pre_step, stack@, Ok(())));
                            lemma_line_rel_concat(
                                tseq.take(idx as int),
                                seq![tseq[idx as int]],
                                old(stack)@,
                                pre_step,
                                stack@,
                                Ok(()),
                            );
                        }
                    },
                    Err(_) => {
                        proof {
                            assert(line_rel(tseq.skip(idx as int), pre_step, stack@, Err(
                                Error::Syntax,
                            )));
                            lemma_line_rel_concat(
                                tseq.take(idx as int),
                                tseq.skip(idx as int),
                                old(stack)@,
                                pre_step,
                                stack@,
                                Err(Error::Syntax),
                            );
                        }
                        return Err(Error::Syntax);
                    },
                }
            },
        }
        idx += 1;
    }
    proof {
        assert(tseq.take(toks@.len() as int) =~= tseq);
    }
    Ok(())
}

/// Recognises an operator token; anything else is a syntax error.
pub fn get_operation(token: &str) -> (r: Result<Op, Error>)
    ensures
        (match op_of_token(token@) {
            Some(op) => r == Ok::<Op, Error>(op),
            None => r == Err::<Op, Error>(Error::Syntax),
        }),
{
    if str_eq(token, "+") {
        Ok(Op::Add)
    } else if str_eq(token, "~") {
        Ok(Op::Neg)
    } else if str_eq(token, "<->") {
        Ok(Op::Swap)
    } else if str_eq(token, "=") {
        Ok(Op::Eq)
    } else if str_eq(token, "#") {
        Ok(Op::Rand)
    } else if str_eq(token, "quit") {
        Ok(Op::Quit)
    } else {
        Err(Error::Syntax)
    }
}

} // verus!
