//! The state of one path of the simulated program: memory, files, process
//! id, status, the symbolic inputs made so far and the constraints on them.
use vstd::prelude::*;
use crate::memory::Memory;
use crate::sims::fs::FileSystem;
use crate::value::{Value, Width};

verus! {

/// Whether the path still runs.
#[derive(Clone, Copy, PartialEq, Eq, Structural, Debug)]
pub enum StateStatus {
    Active,
    Inactive,
}

/// Where a symbolic input comes from.
#[derive(Clone, Copy, PartialEq, Eq, Structural, Debug)]
pub enum SymbolKind {
    /// Byte `index` of a line read by `gets` into `addr`.
    Input(u64, u64),
    /// Byte `index` of the host name.
    Hostname(u64),
    /// The value `fork` returns in the child numbered by the argument.
    Pid(u64),
}

/// A symbolic input: its origin and width.
#[derive(Clone, Copy, PartialEq, Eq, Structural, Debug)]
pub struct SymbolInfo {
    pub kind: SymbolKind,
    pub width: Width,
}

/// The state of one path.
pub struct State {
    pub memory: Memory,
    pub filesystem: FileSystem,
    pub pid: u64,
    pub status: StateStatus,
    /// Symbol `i` is `symbols[i]`.
    pub symbols: Vec<SymbolInfo>,
    /// Values that must be non-zero on this path.
    pub constraints: Vec<Value>,
    /// A word for each symbol that makes every constraint hold: the
    /// assignment by which symbolic addresses and lengths are made concrete.
    pub model: Vec<u64>,
}

impl State {
    /// Memory and file system are well formed, and every symbol in memory,
    /// in the files and in the constraints has been handed out (its id is
    /// below the number of symbols), so that a new symbol is fresh.
    pub open spec fn wf(self) -> bool {
        &&& self.memory.wf()
        &&& self.filesystem@.wf()
        &&& self.memory.below(self.symbols@.len())
        &&& self.filesystem@.below(self.symbols@.len())
        &&& forall|i: int|
            0 <= i < self.constraints@.len() ==> #[trigger] self.constraints@[i].below(
                self.symbols@.len(),
            )
        &&& self.model@.len() == self.symbols@.len()
        &&& self.satisfied_by(self.model_env())
    }

    /// The model as an assignment.
    pub open spec fn model_env(self) -> spec_fn(u64) -> u64 {
        crate::value::assignment_env(self.model@)
    }

    /// The word `v` takes in the model.
    pub open spec fn val(self, v: Value) -> u64 {
        v.eval(self.model_env())
    }

    /// `after` is this state with the path further pinned: the same symbols
    /// and model, and the same constraints followed by new ones, each
    /// saying that some value equals the word it takes in the model.
    pub open spec fn pinned_to(self, after: State) -> bool {
        &&& after.model@ == self.model@
        &&& after.symbols@ == self.symbols@
        &&& self.constraints@.len() <= after.constraints@.len()
        &&& after.constraints@.subrange(0, self.constraints@.len() as int) == self.constraints@
        &&& forall|i: int|
            self.constraints@.len() <= i < after.constraints@.len() ==> exists|v: Value|
                #[trigger] after.constraints@[i] == Value::Binary(
                    crate::value::BinOp::Eq,
                    Box::new(v),
                    Box::new(Value::Concrete(self.val(v))),
                )
    }

    /// The constraint that pins `v` to the word it takes in the model: none
    /// when `v` is concrete.
    pub open spec fn pin(self, v: Value) -> Seq<Value> {
        if v.is_concrete() {
            Seq::empty()
        } else {
            seq![
                Value::Binary(
                    crate::value::BinOp::Eq,
                    Box::new(v),
                    Box::new(Value::Concrete(self.val(v))),
                ),
            ]
        }
    }

    /// The constraints that pin each of `vs`, in order.
    pub open spec fn pins(self, vs: Seq<Value>) -> Seq<Value>
        decreases vs.len(),
    {
        if vs.len() == 0 {
            Seq::empty()
        } else {
            self.pin(vs[0]) + self.pins(vs.drop_first())
        }
    }

    /// `after` is this state with the path pinned at exactly the values
    /// `vs`, in order: the same symbols and model, and the constraints
    /// followed by the pins of `vs`.
    pub open spec fn pinned_at(self, after: State, vs: Seq<Value>) -> bool {
        &&& after.model@ == self.model@
        &&& after.symbols@ == self.symbols@
        &&& after.constraints@ == self.constraints@ + self.pins(vs)
    }

    /// `env` makes every constraint of this path hold.
    pub open spec fn satisfied_by(self, env: spec_fn(u64) -> u64) -> bool {
        forall|i: int| 0 <= i < self.constraints@.len() ==> #[trigger] self.constraints@[i].eval(env) != 0
    }

    /// An active state with empty memory, the standard streams and no symbols.
    pub fn new(pid: u64) -> (s: State)
        ensures
            s.wf(),
            s.memory.bytes@ == Map::<u64, Value>::empty(),
            s.memory.blocks@ == Map::<u64, u64>::empty(),
            s.memory.heap_next == crate::memory::HEAP_START,
            s.filesystem@ == FileSystem::new_view(),
            s.pid == pid,
            s.status == StateStatus::Active,
            s.symbols@ == Seq::<SymbolInfo>::empty(),
            s.constraints@ == Seq::<Value>::empty(),
            s.model@ == Seq::<u64>::empty(),
    {
        State {
            memory: Memory::new(),
            filesystem: FileSystem::new(),
            pid,
            status: StateStatus::Active,
            symbols: Vec::new(),
            constraints: Vec::new(),
            model: Vec::new(),
        }
    }

    /// A new symbolic input of the given origin and width; the model gives
    /// it `init`.
    pub fn fresh_symbol(&mut self, kind: SymbolKind, width: Width, init: u64) -> (v: Value)
        ensures
            final(self).model@ == old(self).model@.push(init),
            v == Value::Symbol(old(self).symbols.len() as u64, width),
            final(self).symbols@ == old(self).symbols@.push(SymbolInfo { kind, width }),
            final(self).memory == old(self).memory,
            final(self).filesystem == old(self).filesystem,
            final(self).pid == old(self).pid,
            final(self).status == old(self).status,
            final(self).constraints == old(self).constraints,
            old(self).wf() ==> final(self).wf(),
    {
        let id = self.symbols.len() as u64;
        self.symbols.push(SymbolInfo { kind, width });
        self.model.push(init);
        proof {
            let n = old(self).symbols@.len();
            let m = self.symbols@.len();
            if old(self).wf() {
                let e1 = old(self).model_env();
                let e2 = self.model_env();
                assert forall|x: u64| x < n implies #[trigger] e2(x) == e1(x) by {
                    assert(self.model@[x as int] == old(self).model@[x as int]);
                }
                lemma_new_symbols_free(*old(self), e1, e2);
                assert forall|a: u64| self.memory.bytes@.contains_key(a) implies #[trigger] self.memory.bytes@[a].below(m) by {
                    crate::value::lemma_below_grows(self.memory.bytes@[a], n, m);
                }
                let fsv = self.filesystem@;
                assert forall|i: int, j: int|
                    0 <= i < fsv.contents.len() && 0 <= j < fsv.contents[i].len() implies #[trigger] fsv.contents[i][j].below(m) by {
                    crate::value::lemma_below_grows(fsv.contents[i][j], n, m);
                }
                assert forall|i: int| 0 <= i < self.constraints@.len() implies #[trigger] self.constraints@[i].below(m) by {
                    crate::value::lemma_below_grows(self.constraints@[i], n, m);
                }
            }
        }
        Value::Symbol(id, width)
    }

    /// The word `v` takes in the model. A symbolic `v` is pinned to that word
    /// by a new constraint, so the path goes on where `v` has that value.
    pub fn concretize(&mut self, v: &Value) -> (r: u64)
        requires
            old(self).wf(),
            v.below(old(self).symbols@.len()),
        ensures
            final(self).wf(),
            r == old(self).val(*v),
            old(self).pinned_to(*final(self)),
            old(self).pinned_at(*final(self), seq![*v]),
            v.is_concrete() ==> r == v.word() && final(self).constraints@ == old(self).constraints@,
            final(self).memory == old(self).memory,
            final(self).filesystem == old(self).filesystem,
            final(self).pid == old(self).pid,
            final(self).status == old(self).status,
    {
        let x = v.evaluate(&self.model);
        match v {
            Value::Concrete(_) => {
                assert(self.constraints@.subrange(0, self.constraints@.len() as int) =~= self.constraints@);
                proof {
                    lemma_pins_one(*old(self), *v);
                }
                assert(self.constraints@ =~= old(self).constraints@ + old(self).pins(seq![*v]));
            },
            _ => {
                let c = Value::binary(crate::value::BinOp::Eq, v.duplicate(), Value::Concrete(x));
                let ghost cs = self.constraints@;
                self.assert_constraint(c);
                assert(self.constraints@.subrange(0, cs.len() as int) =~= cs);
                assert(self.constraints@[cs.len() as int] == Value::Binary(
                    crate::value::BinOp::Eq,
                    Box::new(*v),
                    Box::new(Value::Concrete(old(self).val(*v))),
                ));
                proof {
                    lemma_pins_one(*old(self), *v);
                }
                assert(self.constraints@ =~= old(self).constraints@ + old(self).pins(seq![*v]));
            },
        }
        x
    }

    /// Adds a constraint, over symbols already handed out, to this path.
    pub fn assert_constraint(&mut self, c: Value)
        requires
            c.below(old(self).symbols@.len()),
        ensures
            old(self).wf() && old(self).val(c) != 0 ==> final(self).wf(),
            final(self).model == old(self).model,
            final(self).constraints@ == old(self).constraints@.push(c),
            final(self).memory == old(self).memory,
            final(self).filesystem == old(self).filesystem,
            final(self).pid == old(self).pid,
            final(self).status == old(self).status,
            final(self).symbols == old(self).symbols,
    {
        self.constraints.push(c);
    }
}

/// Symbols not yet handed out are unconstrained: an assignment that
/// satisfies the path still does so whatever it gives the ids from
/// `symbols.len()` on.
pub proof fn lemma_new_symbols_free(s: State, env: spec_fn(u64) -> u64, env2: spec_fn(u64) -> u64)
    requires
        s.wf(),
        s.satisfied_by(env),
        forall|id: u64| id < s.symbols@.len() ==> #[trigger] env2(id) == env(id),
    ensures
        s.satisfied_by(env2),
{
    assert forall|i: int| 0 <= i < s.constraints@.len() implies #[trigger] s.constraints@[i].eval(env2)
        != 0 by {
        crate::value::lemma_eval_agrees(s.constraints@[i], s.symbols@.len(), env2, env);
    }
}

/// Pinning twice is pinning.
pub proof fn lemma_pinned_trans(s1: State, s2: State, s3: State)
    requires
        s1.pinned_to(s2),
        s2.pinned_to(s3),
    ensures
        s1.pinned_to(s3),
{
    assert(s3.constraints@.subrange(0, s1.constraints@.len() as int) =~= s1.constraints@) by {
        assert forall|i: int| 0 <= i < s1.constraints@.len() implies s3.constraints@[i]
            == s1.constraints@[i] by {
            assert(s3.constraints@[i] == s3.constraints@.subrange(0, s2.constraints@.len() as int)[i]);
            assert(s2.constraints@[i] == s2.constraints@.subrange(0, s1.constraints@.len() as int)[i]);
        }
    }
    assert forall|i: int| s1.constraints@.len() <= i < s3.constraints@.len() implies exists|v: Value|
        #[trigger] s3.constraints@[i] == Value::Binary(
            crate::value::BinOp::Eq,
            Box::new(v),
            Box::new(Value::Concrete(s1.val(v))),
        ) by {
        if i < s2.constraints@.len() {
            assert(s3.constraints@[i] == s3.constraints@.subrange(0, s2.constraints@.len() as int)[i]);
            assert(s3.constraints@[i] == s2.constraints@[i]);
            let v = choose|v: Value|
                #[trigger] s2.constraints@[i] == Value::Binary(
                    crate::value::BinOp::Eq,
                    Box::new(v),
                    Box::new(Value::Concrete(s1.val(v))),
                );
            assert(s3.constraints@[i] == Value::Binary(
                crate::value::BinOp::Eq,
                Box::new(v),
                Box::new(Value::Concrete(s1.val(v))),
            ));
        } else {
            let v = choose|v: Value|
                #[trigger] s3.constraints@[i] == Value::Binary(
                    crate::value::BinOp::Eq,
                    Box::new(v),
                    Box::new(Value::Concrete(s2.val(v))),
                );
            assert(s2.model_env() == s1.model_env());
            assert(s3.constraints@[i] == Value::Binary(
                crate::value::BinOp::Eq,
                Box::new(v),
                Box::new(Value::Concrete(s1.val(v))),
            ));
        }
    }
}

/// A state is pinned to itself.
pub proof fn lemma_pinned_refl(s: State)
    ensures
        s.pinned_to(s),
{
    assert(s.constraints@.subrange(0, s.constraints@.len() as int) =~= s.constraints@);
}

/// Pinning at `a` and then at `b` adds the pins of `a` and then of `b`.
pub proof fn lemma_pins_concat(s: State, a: Seq<Value>, b: Seq<Value>)
    ensures
        s.pins(a + b) == s.pins(a) + s.pins(b),
    decreases a.len(),
{
    if a.len() == 0 {
        assert(a + b =~= b);
        assert(s.pins(a) + s.pins(b) =~= s.pins(b));
    } else {
        assert((a + b).drop_first() =~= a.drop_first() + b);
        lemma_pins_concat(s, a.drop_first(), b);
        assert(s.pin(a[0]) + (s.pins(a.drop_first()) + s.pins(b)) =~= (s.pin(a[0]) + s.pins(
            a.drop_first(),
        )) + s.pins(b));
    }
}

/// The pins of one value are its pin.
pub proof fn lemma_pins_one(s: State, v: Value)
    ensures
        s.pins(seq![v]) == s.pin(v),
{
    let e = seq![v].drop_first();
    assert(e =~= Seq::<Value>::empty());
    assert(s.pins(e) == Seq::<Value>::empty());
    assert(s.pin(v) + s.pins(e) =~= s.pin(v));
}

/// Pins depend on the model alone.
pub proof fn lemma_pins_model(s1: State, s2: State, vs: Seq<Value>)
    requires
        s1.model@ == s2.model@,
    ensures
        s1.pins(vs) == s2.pins(vs),
    decreases vs.len(),
{
    assert(s1.model_env() == s2.model_env());
    if vs.len() > 0 {
        lemma_pins_model(s1, s2, vs.drop_first());
    }
}

/// Pinning at `a` and then at `b` is pinning at `a + b`.
pub proof fn lemma_pinned_at_trans(s1: State, s2: State, s3: State, a: Seq<Value>, b: Seq<Value>)
    requires
        s1.pinned_at(s2, a),
        s2.pinned_at(s3, b),
    ensures
        s1.pinned_at(s3, a + b),
{
    lemma_pins_model(s1, s2, b);
    lemma_pins_concat(s1, a, b);
    assert(s3.constraints@ =~= s1.constraints@ + s1.pins(a + b));
}

/// A state is pinned at no values to itself.
pub proof fn lemma_pinned_at_none(s: State)
    ensures
        s.pinned_at(s, Seq::empty()),
{
    assert(s.constraints@ + s.pins(Seq::empty()) =~= s.constraints@);
}

/// Concrete values take no pins.
pub proof fn lemma_pins_concrete(s: State, vs: Seq<Value>)
    requires
        forall|i: int| 0 <= i < vs.len() ==> #[trigger] vs[i].is_concrete(),
    ensures
        s.pins(vs) == Seq::<Value>::empty(),
    decreases vs.len(),
{
    if vs.len() > 0 {
        assert forall|i: int| 0 <= i < vs.drop_first().len() implies #[trigger] vs.drop_first()[i].is_concrete() by {
            assert(vs.drop_first()[i] == vs[i + 1]);
        }
        lemma_pins_concrete(s, vs.drop_first());
        assert(s.pins(vs) =~= Seq::<Value>::empty());
    }
}

} // verus!
