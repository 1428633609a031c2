//! The calculator core: the tagged value domain, the error taxonomy, the
//! operator set, and the stack with its pop-operate-push evaluation step.

use vstd::prelude::*;

verus! {

/// An element of the stack: a signed integer or a boolean.
#[derive(Clone, Copy, Debug, PartialEq, Eq, Structural, PartialOrd, Ord)]
pub enum Elt {
    Int(i32),
    Bool(bool),
}

/// A calculator error, or the `Quit` control signal.
#[derive(Clone, Copy, Debug, PartialEq, Eq, Structural)]
pub enum Error {
    /// A pop was attempted on an empty stack.
    Underflow,
    /// An operand had the wrong variant for the operator.
    Type,
    /// A token was neither an operator nor a value literal.
    Syntax,
    /// The line source failed to produce input.
    IO,
    /// The user asked the calculator to stop.
    Quit,
}

/// A calculator operation.
#[derive(Clone, Copy, Debug, PartialEq, Eq, Structural)]
pub enum Op {
    /// Pop two integers, push their sum.
    Add,
    /// Pop two values, push whether they are equal.
    Eq,
    /// Pop a value, push its negation.
    Neg,
    /// Pop two values, push them back in the opposite order.
    Swap,
    /// Pop an integer bound, push a random integer below it.
    Rand,
    /// Stop the calculator.
    Quit,
}

/// Two's-complement addition on `i32`: the mathematical sum, wrapped
/// into range when it overflows.
pub open spec fn add32(x: i32, y: i32) -> i32 {
    if x + y > i32::MAX {
        (x + y - 0x1_0000_0000) as i32
    } else if x + y < i32::MIN {
        (x + y + 0x1_0000_0000) as i32
    } else {
        (x + y) as i32
    }
}

/// Two's-complement negation on `i32`: `-x`, except that the minimum
/// value (which has no positive counterpart) negates to itself.
pub open spec fn neg32(x: i32) -> i32 {
    if x == i32::MIN {
        i32::MIN
    } else {
        (-(x as int)) as i32
    }
}

/// What `Add` produces from the first-popped value `a` and the
/// second-popped value `b`.
pub open spec fn add_vals(a: Elt, b: Elt) -> Result<Elt, Error> {
    match (a, b) {
        (Elt::Int(x), Elt::Int(y)) => Ok(Elt::Int(add32(x, y))),
        _ => Err(Error::Type),
    }
}

/// What `Neg` produces from the popped value.
pub open spec fn neg_val(e: Elt) -> Elt {
    match e {
        Elt::Int(x) => Elt::Int(neg32(x)),
        Elt::Bool(b) => Elt::Bool(!b),
    }
}

/// What `Eq` produces from the first-popped value `a` and the
/// second-popped value `b`: equality within a variant, a type error
/// across variants.
pub open spec fn eq_vals(a: Elt, b: Elt) -> Result<Elt, Error> {
    match (a, b) {
        (Elt::Int(x), Elt::Int(y)) => Ok(Elt::Bool(x == y)),
        (Elt::Bool(p), Elt::Bool(q)) => Ok(Elt::Bool(p == q)),
        _ => Err(Error::Type),
    }
}

/// Whether `v` is a value that `Rand` may push for the popped bound
/// `bound`: below a positive bound the draw is in `[0, bound)`; for a
/// degenerate bound (zero or negative) the calculator pushes `Int(0)`.
pub open spec fn rand_result(bound: i32, v: Elt) -> bool {
    match v {
        Elt::Int(n) => if bound > 0 {
            0 <= n < bound
        } else {
            n == 0
        },
        Elt::Bool(_) => false,
    }
}

/// How one evaluation step relates the stack before (`pre`) and after
/// (`post`), and the returned result. Operands already popped when a
/// step fails stay popped; only `Rand` leaves the pushed value
/// undetermined (within its range).
pub open spec fn eval_rel(pre: Seq<Elt>, op: Op, post: Seq<Elt>, r: Result<(), Error>) -> bool {
    match op {
        Op::Add => {
            if pre.len() == 0 {
                post == pre && r == Err::<(), Error>(Error::Underflow)
            } else if pre.len() == 1 {
                post == pre.drop_last() && r == Err::<(), Error>(Error::Underflow)
            } else {
                match add_vals(pre.last(), pre[pre.len() - 2]) {
                    Ok(v) => post == pre.drop_last().drop_last().push(v) && r == Ok::<(), Error>(()),
                    Err(e) => post == pre.drop_last().drop_last() && r == Err::<(), Error>(e),
                }
            }
        },
        Op::Eq => {
            if pre.len() == 0 {
                post == pre && r == Err::<(), Error>(Error::Underflow)
            } else if pre.len() == 1 {
                post == pre.drop_last() && r == Err::<(), Error>(Error::Underflow)
            } else {
                match eq_vals(pre.last(), pre[pre.len() - 2]) {
                    Ok(v) => post == pre.drop_last().drop_last().push(v) && r == Ok::<(), Error>(()),
                    Err(e) => post == pre.drop_last().drop_last() && r == Err::<(), Error>(e),
                }
            }
        },
        Op::Neg => {
            if pre.len() == 0 {
                post == pre && r == Err::<(), Error>(Error::Underflow)
            } else {
                post == pre.drop_last().push(neg_val(pre.last())) && r == Ok::<(), Error>(())
            }
        },
        Op::Swap => {
            if pre.len() == 0 {
                post == pre && r == Err::<(), Error>(Error::Underflow)
            } else if pre.len() == 1 {
                post == pre.drop_last() && r == Err::<(), Error>(Error::Underflow)
            } else {
                post == pre.drop_last().drop_last().push(pre.last()).push(pre[pre.len() - 2])
                    && r == Ok::<(), Error>(())
            }
        },
        Op::Rand => {
            if pre.len() == 0 {
                post == pre && r == Err::<(), Error>(Error::Underflow)
            } else {
                match pre.last() {
                    Elt::Int(x) => {
                        &&& post.len() == pre.len()
                        &&& post.drop_last() == pre.drop_last()
                        &&& rand_result(x, post.last())
                        &&& r == Ok::<(), Error>(())
                    },
                    Elt::Bool(_) => post == pre.drop_last() && r == Err::<(), Error>(Error::Type),
                }
            }
        },
        Op::Quit => post == pre && r == Err::<(), Error>(Error::Quit),
    }
}

/// The calculator stack: an owned, ordered sequence of values,
/// last-in first-out. It is the sole mutable state of the calculator.
pub struct Stack {
    data: Vec<Elt>,
}

impl View for Stack {
    type V = Seq<Elt>;

    closed spec fn view(&self) -> Seq<Elt> {
        self.data@
    }
}

/// Relies on `rand::random_range` over `0..bound`: a uniformly chosen
/// integer in the half-open range `[0, bound)`. It panics only on an
/// empty range, which `bound > 0` rules out.
#[verifier::external_body]
fn random_below(bound: i32) -> (r: i32)
    requires
        bound > 0,
    ensures
        0 <= r < bound,
{
    rand::random_range(0..bound)
}

impl Stack {
    /// Creates a new, empty stack.
    pub fn new() -> (s: Stack)
        ensures
            s@ =~= Seq::<Elt>::empty(),
    {
        Stack { data: Vec::new() }
    }

    /// Pushes a value onto the top of the stack; never fails.
    pub fn push(&mut self, val: Elt) -> (r: Result<(), Error>)
        ensures
            final(self)@ =~= old(self)@.push(val),
            r == Ok::<(), Error>(()),
    {
        self.data.push(val);
        Ok(())
    }

    /// Removes and returns the top value of the stack; fails with
    /// `Underflow` on an empty stack, leaving it unchanged.
    pub fn pop(&mut self) -> (r: Result<Elt, Error>)
        ensures
            old(self)@.len() == 0 ==> r == Err::<Elt, Error>(Error::Underflow) && final(self)@ =~= old(self)@,
            old(self)@.len() > 0 ==> r == Ok::<Elt, Error>(old(self)@.last()) && final(self)@ =~= old(self)@.drop_last(),
    {
        match self.data.pop() {
            Some(v) => Ok(v),
            None => Err(Error::Underflow),
        }
    }

    /// Evaluates one operator against the stack, popping its operands,
    /// pushing its result, and reporting failure as the operator's
    /// semantics demand; `eval_rel` states the full relation.
    pub fn eval(&mut self, op: Op) -> (r: Result<(), Error>)
        ensures
            eval_rel(old(self)@, op, final(self)@, r),
    {
        let ghost pre: Seq<Elt> = old(self)@;
        match op {
            Op::Add => {
                let a = self.pop();
                let b = self.pop();
                match (a, b) {
                    (Ok(x), Ok(y)) => {
                        proof {
                            assert(x == pre.last());
                            assert(y == pre[pre.len() - 2]);
                            assert(self@ == pre.drop_last().drop_last());
                        }
                        match self.add(x, y) {
                            Ok(v) => self.push(v),
                            Err(e) => Err(e),
                        }
                    },
                    (Err(e), _) => Err(e),
                    (_, Err(e)) => Err(e),
                }
            },
            Op::Eq => {
                let a = self.pop();
                let b = self.pop();
                match (a, b) {
                    (Ok(x), Ok(y)) => {
                        proof {
                            assert(x == pre.last());
                            assert(y == pre[pre.len() - 2]);
                            assert(self@ == pre.drop_last().drop_last());
                        }
                        match self.eq(x, y) {
                            Ok(v) => self.push(v),
                            Err(e) => Err(e),
                        }
                    },
                    (Err(e), _) => Err(e),
                    (_, Err(e)) => Err(e),
                }
            },
            Op::Neg => {
                match self.pop() {
                    Ok(x) => {
                        let v = self.neg(x);
                        self.push(v)
                    },
                    Err(e) => Err(e),
                }
            },
            Op::Swap => {
                let a = self.pop();
                let b = self.pop();
                match (a, b) {
                    (Ok(x), Ok(y)) => {
                        proof {
                            assert(x == pre.last());
                            assert(y == pre[pre.len() - 2]);
                        }
                        let _ = self.push(x);
                        self.push(y)
                    },
                    (Err(e), _) => Err(e),
                    (_, Err(e)) => Err(e),
                }
            },
            Op::Rand => {
                match self.pop() {
                    Ok(x) => match self.rand(x) {
                        Ok(v) => {
                            let res = self.push(v);
                            proof {
                                assert(self@.drop_last() =~= pre.drop_last());
                            }
                            res
                        },
                        Err(e) => Err(e),
                    },
                    Err(e) => Err(e),
                }
            },
            Op::Quit => Err(Error::Quit),
        }
    }

    /// Adds two popped values: defined only when both are integers.
    pub fn add(&self, a: Elt, b: Elt) -> (r: Result<Elt, Error>)
        ensures
            r == add_vals(a, b),
    {
        if let Elt::Int(x) = a {
            if let Elt::Int(y) = b {
                return Ok(Elt::Int(x.wrapping_add(y)));
            }
        }
        Err(Error::Type)
    }

    /// Negates a popped value: arithmetic negation of an integer,
    /// logical negation of a boolean.
    pub fn neg(&self, e: Elt) -> (r: Elt)
        ensures
            r == neg_val(e),
    {
        match e {
            Elt::Int(i) => {
                if i == i32::MIN {
                    Elt::Int(i32::MIN)
                } else {
                    Elt::Int(-i)
                }
            },
            Elt::Bool(b) => Elt::Bool(!b),
        }
    }

    /// Compares two popped values: defined only within a variant.
    pub fn eq(&self, a: Elt, b: Elt) -> (r: Result<Elt, Error>)
        ensures
            r == eq_vals(a, b),
    {
        match a {
            Elt::Int(ai) => match b {
                Elt::Int(bi) => Ok(Elt::Bool(ai == bi)),
                _ => Err(Error::Type),
            },
            Elt::Bool(ab) => match b {
                Elt::Bool(bb) => Ok(Elt::Bool(ab == bb)),
                _ => Err(Error::Type),
            },
        }
    }

    /// Draws a random value below a popped integer bound; a zero or
    /// negative bound degenerates to `Int(0)` rather than failing.
    pub fn rand(&self, a: Elt) -> (r: Result<Elt, Error>)
        ensures
            match (a, r) {
                (Elt::Int(x), Ok(v)) => rand_result(x, v),
                (Elt::Int(_), Err(_)) => false,
                (Elt::Bool(_), res) => res == Err::<Elt, Error>(Error::Type),
            },
    {
        match a {
            Elt::Int(i) => {
                if i > 0 {
                    Ok(Elt::Int(random_below(i)))
                } else {
                    Ok(Elt::Int(0))
                }
            },
            _ => Err(Error::Type),
        }
    }
}

/// LIFO law: popping immediately after a push yields the pushed value
/// and restores the stack beneath it. Together with the contracts of
/// `push` and `pop` this pins the stack discipline.
pub proof fn lemma_push_pop_lifo(s: Seq<Elt>, v: Elt)
    ensures
        s.push(v).len() > 0,
        s.push(v).last() == v,
        s.push(v).drop_last() =~= s,
{
}

/// `Add` on integer operands `y` (beneath) and `x` (top) pushes their
/// sum, whenever that sum fits in an `i32`.
pub proof fn lemma_eval_add_ints(pre: Seq<Elt>, post: Seq<Elt>, r: Result<(), Error>, x: i32, y: i32)
    requires
        pre.len() >= 2,
        pre.last() == Elt::Int(x),
        pre[pre.len() - 2] == Elt::Int(y),
        i32::MIN <= x + y <= i32::MAX,
        eval_rel(pre, Op::Add, post, r),
    ensures
        r == Ok::<(), Error>(()),
        post == pre.drop_last().drop_last().push(Elt::Int((x + y) as i32)),
{
}

/// `Add` with a boolean among its two operands fails with `Type`.
pub proof fn lemma_eval_add_type(pre: Seq<Elt>, post: Seq<Elt>, r: Result<(), Error>)
    requires
        pre.len() >= 2,
        pre.last() is Bool || pre[pre.len() - 2] is Bool,
        eval_rel(pre, Op::Add, post, r),
    ensures
        r == Err::<(), Error>(Error::Type),
        post == pre.drop_last().drop_last(),
{
}

/// `Neg` on `Int(x)` pushes `Int(-x)`, whenever `-x` fits in an `i32`.
pub proof fn lemma_eval_neg_int(pre: Seq<Elt>, post: Seq<Elt>, r: Result<(), Error>, x: i32)
    requires
        pre.len() >= 1,
        pre.last() == Elt::Int(x),
        x != i32::MIN,
        eval_rel(pre, Op::Neg, post, r),
    ensures
        r == Ok::<(), Error>(()),
        post == pre.drop_last().push(Elt::Int((-(x as int)) as i32)),
{
}

/// `Neg` on `Bool(b)` pushes `Bool(!b)`.
pub proof fn lemma_eval_neg_bool(pre: Seq<Elt>, post: Seq<Elt>, r: Result<(), Error>, b: bool)
    requires
        pre.len() >= 1,
        pre.last() == Elt::Bool(b),
        eval_rel(pre, Op::Neg, post, r),
    ensures
        r == Ok::<(), Error>(()),
        post == pre.drop_last().push(Elt::Bool(!b)),
{
}

/// `Eq` on two same-variant operands pushes exactly whether they are
/// equal.
pub proof fn lemma_eval_eq_same(pre: Seq<Elt>, post: Seq<Elt>, r: Result<(), Error>)
    requires
        pre.len() >= 2,
        (pre.last() is Int && pre[pre.len() - 2] is Int) || (pre.last() is Bool && pre[pre.len()
            - 2] is Bool),
        eval_rel(pre, Op::Eq, post, r),
    ensures
        r == Ok::<(), Error>(()),
        post == pre.drop_last().drop_last().push(Elt::Bool(pre.last() == pre[pre.len() - 2])),
{
}

/// `Eq` on operands of different variants fails with `Type`.
pub proof fn lemma_eval_eq_cross(pre: Seq<Elt>, post: Seq<Elt>, r: Result<(), Error>)
    requires
        pre.len() >= 2,
        (pre.last() is Int) != (pre[pre.len() - 2] is Int),
        eval_rel(pre, Op::Eq, post, r),
    ensures
        r == Err::<(), Error>(Error::Type),
        post == pre.drop_last().drop_last(),
{
}

/// `Swap` exchanges the two topmost values and touches nothing below
/// them.
pub proof fn lemma_eval_swap(pre: Seq<Elt>, post: Seq<Elt>, r: Result<(), Error>)
    requires
        pre.len() >= 2,
        eval_rel(pre, Op::Swap, post, r),
    ensures
        r == Ok::<(), Error>(()),
        post.len() == pre.len(),
        post.last() == pre[pre.len() - 2],
        post[post.len() - 2] == pre.last(),
        forall|i: int| 0 <= i < pre.len() - 2 ==> post[i] == pre[i],
{
}

/// `Rand` below a positive bound pushes an integer in `[0, bound)` and
/// leaves the rest of the stack as it was, whatever the draw.
pub proof fn lemma_eval_rand(pre: Seq<Elt>, post: Seq<Elt>, r: Result<(), Error>, x: i32)
    requires
        pre.len() >= 1,
        pre.last() == Elt::Int(x),
        x > 0,
        eval_rel(pre, Op::Rand, post, r),
    ensures
        r == Ok::<(), Error>(()),
        post.len() == pre.len(),
        post.drop_last() == pre.drop_last(),
        post.last() matches Elt::Int(n) && 0 <= n < x,
{
}

/// `Quit` always fails with the `Quit` signal and never changes the
/// stack.
pub proof fn lemma_eval_quit(pre: Seq<Elt>, post: Seq<Elt>, r: Result<(), Error>)
    requires
        eval_rel(pre, Op::Quit, post, r),
    ensures
        r == Err::<(), Error>(Error::Quit),
        post == pre,
{
}

} // verus!
