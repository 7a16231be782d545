//! Machine words that are either known numbers or expressions over
//! symbolic inputs.
//!
//! A value denotes a 64-bit word once every symbol in it is given a number.
//! `eval` says which word, under an assignment `env` from symbol ids to
//! words.  Every operation folds to a concrete word when its inputs are
//! concrete, and otherwise builds an expression node.
use vstd::prelude::*;

verus! {

/// Binary operators on 64-bit words. Arithmetic wraps; comparisons are
/// unsigned and give 1 or 0.
#[derive(Clone, Copy, PartialEq, Eq, Structural, Debug)]
pub enum BinOp {
    Add,
    Sub,
    Mul,
    And,
    Or,
    Xor,
    Ult,
    Ule,
    Uge,
    Eq,
}

/// The width of a symbolic input: one byte or a whole word.
#[derive(Clone, Copy, PartialEq, Eq, Structural, Debug)]
pub enum Width {
    Byte,
    Word,
}

/// A 64-bit value of the simulated machine.
#[derive(Debug)]
pub enum Value {
    /// A known word.
    Concrete(u64),
    /// A symbolic input, by its id and width.
    Symbol(u64, Width),
    /// Bitwise complement.
    Not(Box<Value>),
    /// A binary operation.
    Binary(BinOp, Box<Value>, Box<Value>),
    /// `if c != 0 { t } else { e }`.
    Ite(Box<Value>, Box<Value>, Box<Value>),
}

pub open spec fn wadd(a: u64, b: u64) -> u64 {
    vstd::wrapping::u64_specs::wrapping_add(a, b)
}

pub open spec fn wsub(a: u64, b: u64) -> u64 {
    vstd::wrapping::u64_specs::wrapping_sub(a, b)
}

pub open spec fn wmul(a: u64, b: u64) -> u64 {
    vstd::wrapping::u64_specs::wrapping_mul(a, b)
}

pub open spec fn flag(b: bool) -> u64 {
    if b {
        1
    } else {
        0
    }
}

/// The meaning of a binary operator on two words.
pub open spec fn apply(op: BinOp, a: u64, b: u64) -> u64 {
    match op {
        BinOp::Add => wadd(a, b),
        BinOp::Sub => wsub(a, b),
        BinOp::Mul => wmul(a, b),
        BinOp::And => a & b,
        BinOp::Or => a | b,
        BinOp::Xor => a ^ b,
        BinOp::Ult => flag(a < b),
        BinOp::Ule => flag(a <= b),
        BinOp::Uge => flag(a >= b),
        BinOp::Eq => flag(a == b),
    }
}

/// The word that a symbol of the given width takes under `env`.
pub open spec fn input(env: spec_fn(u64) -> u64, id: u64, w: Width) -> u64 {
    match w {
        Width::Byte => env(id) % 256,
        Width::Word => env(id),
    }
}

/// The assignment that gives symbol `i` the word `a[i]`, and 0 to symbols
/// past the end of `a`.
pub open spec fn assignment_env(a: Seq<u64>) -> spec_fn(u64) -> u64 {
    |id: u64| if id < a.len() { a[id as int] } else { 0 }
}

/// The value that `Value::binary` builds.
pub open spec fn combine(op: BinOp, a: Value, b: Value) -> Value {
    if a.is_concrete() && b.is_concrete() {
        Value::Concrete(apply(op, a.word(), b.word()))
    } else {
        Value::Binary(op, Box::new(a), Box::new(b))
    }
}

/// The value that `Value::ite` builds.
pub open spec fn select(c: Value, t: Value, e: Value) -> Value {
    if c.is_concrete() {
        if c.word() != 0 {
            t
        } else {
            e
        }
    } else {
        Value::Ite(Box::new(c), Box::new(t), Box::new(e))
    }
}

/// The value that `Value::complement` builds.
pub open spec fn flip(a: Value) -> Value {
    if a.is_concrete() {
        Value::Concrete(!a.word())
    } else {
        Value::Not(Box::new(a))
    }
}

impl Value {
    /// The word this value denotes when each symbol `id` is given `env(id)`.
    pub open spec fn eval(self, env: spec_fn(u64) -> u64) -> u64
        decreases self,
    {
        match self {
            Value::Concrete(c) => c,
            Value::Symbol(id, w) => input(env, id, w),
            Value::Not(a) => !a.eval(env),
            Value::Binary(op, a, b) => apply(op, a.eval(env), b.eval(env)),
            Value::Ite(c, t, e) => if c.eval(env) != 0 {
                t.eval(env)
            } else {
                e.eval(env)
            },
        }
    }

    /// Every symbol in this value has an id below `n`.
    pub open spec fn below(self, n: nat) -> bool
        decreases self,
    {
        match self {
            Value::Concrete(_) => true,
            Value::Symbol(id, _) => id < n,
            Value::Not(a) => a.below(n),
            Value::Binary(_, a, b) => a.below(n) && b.below(n),
            Value::Ite(c, t, e) => c.below(n) && t.below(n) && e.below(n),
        }
    }

    pub open spec fn is_concrete(self) -> bool {
        self is Concrete
    }

    /// The word of a concrete value.
    pub open spec fn word(self) -> u64 {
        self->Concrete_0
    }

    /// A copy of this value.
    pub fn duplicate(&self) -> (r: Value)
        ensures
            r == *self,
        decreases self,
    {
        match self {
            Value::Concrete(c) => Value::Concrete(*c),
            Value::Symbol(id, w) => Value::Symbol(*id, *w),
            Value::Not(a) => Value::Not(Box::new((**a).duplicate())),
            Value::Binary(op, a, b) => Value::Binary(
                *op,
                Box::new((**a).duplicate()),
                Box::new((**b).duplicate()),
            ),
            Value::Ite(c, t, e) => Value::Ite(
                Box::new((**c).duplicate()),
                Box::new((**t).duplicate()),
                Box::new((**e).duplicate()),
            ),
        }
    }

    /// The word this value denotes when symbol `i` is `assignment[i]` (and
    /// symbols past its end are 0).
    pub fn evaluate(&self, assignment: &Vec<u64>) -> (r: u64)
        ensures
            r == self.eval(assignment_env(assignment@)),
        decreases self,
    {
        match self {
            Value::Concrete(c) => *c,
            Value::Symbol(id, w) => {
                let x: u64 = if *id < assignment.len() as u64 {
                    assignment[*id as usize]
                } else {
                    0
                };
                match w {
                    Width::Byte => x % 256,
                    Width::Word => x,
                }
            },
            Value::Not(a) => !(**a).evaluate(assignment),
            Value::Binary(op, a, b) => {
                let x = (**a).evaluate(assignment);
                let y = (**b).evaluate(assignment);
                let r = Value::binary(*op, Value::Concrete(x), Value::Concrete(y));
                match r {
                    Value::Concrete(c) => c,
                    _ => 0,
                }
            },
            Value::Ite(c, t, e) => if (**c).evaluate(assignment) != 0 {
                (**t).evaluate(assignment)
            } else {
                (**e).evaluate(assignment)
            },
        }
    }

    /// The word of this value if it is concrete.
    pub fn as_concrete(&self) -> (r: Option<u64>)
        ensures
            r == (if self.is_concrete() {
                Some(self.word())
            } else {
                None::<u64>
            }),
    {
        match self {
            Value::Concrete(c) => Some(*c),
            _ => None,
        }
    }

    /// `op` applied to `a` and `b`, folded when both are concrete.
    pub fn binary(op: BinOp, a: Value, b: Value) -> (r: Value)
        ensures
            r == combine(op, a, b),
            forall|n: nat| a.below(n) && b.below(n) ==> #[trigger] r.below(n),
            forall|env: spec_fn(u64) -> u64| #[trigger]
                r.eval(env) == apply(op, a.eval(env), b.eval(env)),
            r.is_concrete() <==> (a.is_concrete() && b.is_concrete()),
    {
        match (&a, &b) {
            (Value::Concrete(x), Value::Concrete(y)) => {
                let x = *x;
                let y = *y;
                let c: u64 = match op {
                    BinOp::Add => x.wrapping_add(y),
                    BinOp::Sub => x.wrapping_sub(y),
                    BinOp::Mul => x.wrapping_mul(y),
                    BinOp::And => x & y,
                    BinOp::Or => x | y,
                    BinOp::Xor => x ^ y,
                    BinOp::Ult => if x < y {
                        1
                    } else {
                        0
                    },
                    BinOp::Ule => if x <= y {
                        1
                    } else {
                        0
                    },
                    BinOp::Uge => if x >= y {
                        1
                    } else {
                        0
                    },
                    BinOp::Eq => if x == y {
                        1
                    } else {
                        0
                    },
                };
                Value::Concrete(c)
            },
            _ => Value::Binary(op, Box::new(a), Box::new(b)),
        }
    }

    /// Bitwise complement, folded when `a` is concrete.
    pub fn complement(a: Value) -> (r: Value)
        ensures
            r == flip(a),
            forall|n: nat| a.below(n) ==> #[trigger] r.below(n),
            forall|env: spec_fn(u64) -> u64| #[trigger] r.eval(env) == !a.eval(env),
            r.is_concrete() <==> a.is_concrete(),
    {
        match &a {
            Value::Concrete(x) => Value::Concrete(!*x),
            _ => Value::Not(Box::new(a)),
        }
    }

    /// `if c != 0 { t } else { e }`, folded when `c` is concrete.
    pub fn ite(c: Value, t: Value, e: Value) -> (r: Value)
        ensures
            r == select(c, t, e),
            forall|n: nat| c.below(n) && t.below(n) && e.below(n) ==> #[trigger] r.below(n),
            forall|env: spec_fn(u64) -> u64| #[trigger]
                r.eval(env) == (if c.eval(env) != 0 {
                    t.eval(env)
                } else {
                    e.eval(env)
                }),
            r.is_concrete() <==> (c.is_concrete() && (if c.word() != 0 {
                t.is_concrete()
            } else {
                e.is_concrete()
            })),
    {
        match &c {
            Value::Concrete(x) => if *x != 0 {
                t
            } else {
                e
            },
            _ => Value::Ite(Box::new(c), Box::new(t), Box::new(e)),
        }
    }

    /// A word that this value exceeds under no assignment: read off its
    /// shape (a byte input is below 256, a comparison gives 0 or 1, a
    /// conjunction is below each side, a choice below the larger branch).
    pub open spec fn bound(self) -> u64
        decreases self,
    {
        match self {
            Value::Concrete(c) => c,
            Value::Symbol(_, Width::Byte) => 255,
            Value::Binary(BinOp::And, a, b) => if a.bound() < b.bound() {
                a.bound()
            } else {
                b.bound()
            },
            Value::Binary(BinOp::Ult, _, _) => 1,
            Value::Binary(BinOp::Ule, _, _) => 1,
            Value::Binary(BinOp::Uge, _, _) => 1,
            Value::Binary(BinOp::Eq, _, _) => 1,
            Value::Ite(_, t, e) => if t.bound() < e.bound() {
                e.bound()
            } else {
                t.bound()
            },
            _ => u64::MAX,
        }
    }

    /// A word that this value is at least under every assignment: read off
    /// its shape (a known word is itself, a choice is at least the smaller
    /// branch, anything else at least 0).
    pub open spec fn floor(self) -> u64
        decreases self,
    {
        match self {
            Value::Concrete(c) => c,
            Value::Ite(_, t, e) => if t.floor() < e.floor() {
                t.floor()
            } else {
                e.floor()
            },
            _ => 0,
        }
    }

    /// The floor of this value (see `floor`).
    pub fn lower_bound(&self) -> (r: u64)
        ensures
            r == self.floor(),
            forall|env: spec_fn(u64) -> u64| r <= #[trigger] self.eval(env),
        decreases self,
    {
        proof {
            assert forall|env: spec_fn(u64) -> u64| #[trigger] self.floor() <= self.eval(env) by {
                lemma_floor(*self, env);
            }
        }
        match self {
            Value::Concrete(c) => *c,
            Value::Ite(_, t, e) => {
                let x = (**t).lower_bound();
                let y = (**e).lower_bound();
                if x < y {
                    x
                } else {
                    y
                }
            },
            _ => 0,
        }
    }

    /// The bound of this value (see `bound`).
    pub fn upper_bound(&self) -> (r: u64)
        ensures
            r == self.bound(),
            forall|env: spec_fn(u64) -> u64| #[trigger] self.eval(env) <= r,
        decreases self,
    {
        proof {
            assert forall|env: spec_fn(u64) -> u64| #[trigger] self.eval(env) <= self.bound() by {
                lemma_bound(*self, env);
            }
        }
        match self {
            Value::Concrete(c) => *c,
            Value::Symbol(_, Width::Byte) => 255,
            Value::Binary(BinOp::And, a, b) => {
                let x = (**a).upper_bound();
                let y = (**b).upper_bound();
                if x < y {
                    x
                } else {
                    y
                }
            },
            Value::Binary(BinOp::Ult, _, _) => 1,
            Value::Binary(BinOp::Ule, _, _) => 1,
            Value::Binary(BinOp::Uge, _, _) => 1,
            Value::Binary(BinOp::Eq, _, _) => 1,
            Value::Ite(_, t, e) => {
                let x = (**t).upper_bound();
                let y = (**e).upper_bound();
                if x < y {
                    y
                } else {
                    x
                }
            },
            _ => u64::MAX,
        }
    }
}

/// A value is never below its floor.
pub proof fn lemma_floor(v: Value, env: spec_fn(u64) -> u64)
    ensures
        v.floor() <= v.eval(env),
    decreases v,
{
    if let Value::Ite(c, t, e) = v {
        lemma_floor(*t, env);
        lemma_floor(*e, env);
    }
}

/// A value never exceeds its bound.
pub proof fn lemma_bound(v: Value, env: spec_fn(u64) -> u64)
    ensures
        v.eval(env) <= v.bound(),
    decreases v,
{
    match v {
        Value::Binary(BinOp::And, a, b) => {
            lemma_bound(*a, env);
            lemma_bound(*b, env);
            let x = a.eval(env);
            let y = b.eval(env);
            assert(x & y <= x && x & y <= y) by (bit_vector);
        },
        Value::Binary(op, a, b) => {
            lemma_flags(a.eval(env) < b.eval(env), true);
            lemma_flags(a.eval(env) <= b.eval(env), true);
            lemma_flags(a.eval(env) >= b.eval(env), true);
            lemma_flags(a.eval(env) == b.eval(env), true);
        },
        Value::Ite(c, t, e) => {
            lemma_bound(*t, env);
            lemma_bound(*e, env);
        },
        _ => {},
    }
}

/// Bit operations on 0/1 flags behave as the logical ones.
pub proof fn lemma_flags(x: bool, y: bool)
    ensures
        flag(x) & !flag(y) == flag(x && !y),
        flag(x) | flag(y) == flag(x || y),
        1u64 & flag(x) == flag(x),
        flag(x) <= 1,
{
    assert(1u64 & !1u64 == 0u64) by (bit_vector);
    assert(1u64 & !0u64 == 1u64) by (bit_vector);
    assert(0u64 & !1u64 == 0u64) by (bit_vector);
    assert(0u64 & !0u64 == 0u64) by (bit_vector);
    assert(1u64 | 1u64 == 1u64) by (bit_vector);
    assert(1u64 | 0u64 == 1u64) by (bit_vector);
    assert(0u64 | 1u64 == 1u64) by (bit_vector);
    assert(0u64 | 0u64 == 0u64) by (bit_vector);
    assert(1u64 & 1u64 == 1u64) by (bit_vector);
    assert(1u64 & 0u64 == 0u64) by (bit_vector);
}

/// What `combine` builds denotes the operator applied to the operands.
pub proof fn lemma_combine_eval(op: BinOp, a: Value, b: Value, env: spec_fn(u64) -> u64)
    ensures
        combine(op, a, b).eval(env) == apply(op, a.eval(env), b.eval(env)),
        combine(op, a, b).is_concrete() <==> (a.is_concrete() && b.is_concrete()),
{
}

/// A value whose symbols are below `n` has them below any larger bound.
pub proof fn lemma_below_grows(v: Value, n: nat, m: nat)
    requires
        v.below(n),
        n <= m,
    ensures
        v.below(m),
    decreases v,
{
    match v {
        Value::Not(a) => lemma_below_grows(*a, n, m),
        Value::Binary(_, a, b) => {
            lemma_below_grows(*a, n, m);
            lemma_below_grows(*b, n, m);
        },
        Value::Ite(c, t, e) => {
            lemma_below_grows(*c, n, m);
            lemma_below_grows(*t, n, m);
            lemma_below_grows(*e, n, m);
        },
        _ => {},
    }
}

/// A value whose symbols are below `n` evaluates alike under assignments
/// that agree below `n`.
pub proof fn lemma_eval_agrees(v: Value, n: nat, e1: spec_fn(u64) -> u64, e2: spec_fn(u64) -> u64)
    requires
        v.below(n),
        forall|id: u64| id < n ==> #[trigger] e1(id) == e2(id),
    ensures
        v.eval(e1) == v.eval(e2),
    decreases v,
{
    match v {
        Value::Not(a) => lemma_eval_agrees(*a, n, e1, e2),
        Value::Binary(_, a, b) => {
            lemma_eval_agrees(*a, n, e1, e2);
            lemma_eval_agrees(*b, n, e1, e2);
        },
        Value::Ite(c, t, e) => {
            lemma_eval_agrees(*c, n, e1, e2);
            lemma_eval_agrees(*t, n, e1, e2);
            lemma_eval_agrees(*e, n, e1, e2);
        },
        _ => {},
    }
}

/// What `combine` builds mentions only the operands' symbols.
pub proof fn lemma_combine_below(op: BinOp, a: Value, b: Value, n: nat)
    requires
        a.below(n),
        b.below(n),
    ensures
        combine(op, a, b).below(n),
{
}

} // verus!
