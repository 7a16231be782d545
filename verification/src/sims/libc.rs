//! The C library calls of the simulated program.
//!
//! Each call takes the path's state and its arguments as values, and gives
//! back the value the call returns. Memory is read and written at known
//! places: where a call takes a symbolic address or descriptor, it uses the
//! word that the path's model gives it and pins the path to that word with
//! a new constraint. A symbolic count is kept symbolic: every byte up to a
//! bound is written, guarded by the count. The bound is read off the
//! count's shape where that gives one up to `MAX_LEN`; else it is the word
//! the model gives the count, and the path is capped there by the
//! constraint that the count is no larger. String
//! lengths over symbolic bytes are expressions, and so are the results
//! computed from them; a copy of a string whose bytes are symbolic writes
//! each byte guarded by the string's length. Each contract names the values
//! its call pins, in order (`pinned_at`).
use vstd::prelude::*;
use crate::memory::{
    Memory,
    in_range,
    store,
    settled,
    known_len,
    zero_scan,
    lemma_settled_len,
    fits,
    chunk_size,
};
use crate::state::State;
use crate::value::{BinOp, Value, wadd, flag, lemma_flags};

verus! {

/// The longest string the library looks at.
pub const MAX_LEN: u64 = 8192;

/// The C string at `a` has a length fixed by concrete bytes among its first
/// `max` bytes.
pub open spec fn str_known(m: Memory, a: u64, max: u64) -> bool {
    in_range(a, max as int) && settled(m.region(a, max as int))
}

/// That length (at most `max`).
pub open spec fn str_len(m: Memory, a: u64, max: u64) -> int {
    known_len(m.region(a, max as int)) as int
}

/// Argument `i` as the word it takes in the model.
pub open spec fn argv(s: State, args: Seq<Value>, i: int) -> u64 {
    s.val(args[i])
}

/// Arguments `0..n` are there and mention only symbols handed out.
pub open spec fn known_args(s: State, args: Seq<Value>, n: int) -> bool {
    args.len() >= n && forall|i: int| 0 <= i < n ==> #[trigger] args[i].below(s.symbols@.len())
}

/// Length of the C string at `a` in the model, looking at no more than
/// `max` bytes.
pub open spec fn model_len(s: State, a: u64, max: u64) -> int {
    zero_scan(s.memory.region(a, max as int), s.model_env()) as int
}

/// Length in the model of the C string at argument `i`.
pub open spec fn mlen(s: State, args: Seq<Value>, i: int) -> int {
    model_len(s, argv(s, args, i), MAX_LEN)
}

/// The `MAX_LEN` bytes from argument `i` on stay below 2^64.
pub open spec fn window_in_range(s: State, args: Seq<Value>, i: int) -> bool {
    in_range(argv(s, args, i), MAX_LEN as int)
}

/// Only the bytes changed, and the path was pinned at exactly `vs`.
pub open spec fn bytes_changed_pinned(s1: State, s2: State, vs: Seq<Value>) -> bool {
    &&& s2.memory.heap_next == s1.memory.heap_next
    &&& s2.memory.blocks@ == s1.memory.blocks@
    &&& s2.filesystem == s1.filesystem
    &&& s2.pid == s1.pid
    &&& s2.status == s1.status
    &&& s1.pinned_at(s2, vs)
}

/// `len` is the length of the C string in `s` under every assignment.
pub open spec fn string_length(len: Value, s: Seq<Value>) -> bool {
    forall|env: spec_fn(u64) -> u64| #[trigger] len.eval(env) == zero_scan(s, env)
}

/// The values that reading the path at argument 0 pins: the pointer, the
/// path's length `len`, then each of the path's bytes.
pub open spec fn path_pins(s: State, args: Seq<Value>, len: Value) -> Seq<Value> {
    seq![args[0], len] + s.memory.region(argv(s, args, 0), mlen(s, args, 0))
}

/// `s2` is `s1` with the path pinned at the values that reading the path at
/// argument 0 pins, for a value that is the path's length.
pub open spec fn path_pinned(s1: State, s2: State, args: Seq<Value>) -> bool {
    exists|len: Value|
        #[trigger] string_length(len, s1.memory.region(argv(s1, args, 0), MAX_LEN as int))
            && s1.pinned_at(s2, path_pins(s1, args, len))
}

/// The length of the C string at `a` as it is in the model; a symbolic
/// length is pinned to that word.
fn concrete_strlen(state: &mut State, a: u64, max: u64) -> (r: u64)
    requires
        old(state).wf(),
        in_range(a, max as int),
    ensures
        final(state).wf(),
        r == model_len(*old(state), a, max),
        r <= max,
        old(state).pinned_to(*final(state)),
        exists|len: Value|
            #[trigger] string_length(len, old(state).memory.region(a, max as int)) && old(
                state,
            ).pinned_at(*final(state), seq![len]),
        final(state).memory == old(state).memory,
        final(state).filesystem == old(state).filesystem,
        final(state).pid == old(state).pid,
        final(state).status == old(state).status,
        str_known(old(state).memory, a, max) ==> r == str_len(old(state).memory, a, max)
            && final(state).constraints@ == old(state).constraints@,
{
    let v = state.memory.strlen(a, max);
    proof {
        let reg = state.memory.region(a, max as int);
        crate::memory::lemma_zero_scan_meaning(reg, state.model_env());
        if settled(reg) {
            lemma_settled_len(reg, state.model_env());
        }
    }
    let r = state.concretize(&v);
    assert(string_length(v, old(state).memory.region(a, max as int)));
    r
}

/// The `args[2]` bytes (as the count stands for them) from arguments 0 and
/// 1 on stay below 2^64.
pub open spec fn copy_fits(s: State, args: Seq<Value>) -> bool {
    in_range(argv(s, args, 0), span(s, args[2]) as int) && in_range(
        argv(s, args, 1),
        span(s, args[2]) as int,
    )
}

/// What a copy of `args[2]` bytes from argument 1 to argument 0 leaves at
/// argument 0.
pub open spec fn copied(s: State, args: Seq<Value>) -> Seq<Value> {
    counted(
        s.memory,
        argv(s, args, 0),
        s.memory.region(argv(s, args, 1), span(s, args[2]) as int),
        args[2],
    )
}

/// A symbolic count: every byte up to the number it stands for is written,
/// each guarded by the count.
pub open spec fn guarded_count(v: Value) -> bool {
    !v.is_concrete()
}

/// A symbolic count whose shape gives no bound up to `MAX_LEN` (a word
/// input, say): it stands for the word it takes in the model, and the path
/// is capped there, by the constraint that the count is no larger.
pub open spec fn capped_count(v: Value) -> bool {
    !v.is_concrete() && v.bound() > MAX_LEN
}

/// How many bytes a count stands for: its word when it is concrete, its
/// bound when that is at most `MAX_LEN`, else the word it takes in the
/// model.
pub open spec fn span(s: State, v: Value) -> u64 {
    if !v.is_concrete() && v.bound() <= MAX_LEN {
        v.bound()
    } else {
        s.val(v)
    }
}

/// What writing `data` from `addr` on with the count `v` leaves there:
/// the guarded bytes where the count is symbolic, else `data` itself.
pub open spec fn counted(m: Memory, addr: u64, data: Seq<Value>, v: Value) -> Seq<Value> {
    if guarded_count(v) {
        m.guarded(addr, data, v)
    } else {
        data
    }
}

/// The value whose pin caps the count `v` at the word it takes in the
/// model: the comparison "`v` is no larger", which is 1 there.
pub open spec fn cap_value(s: State, v: Value) -> Value {
    Value::Binary(BinOp::Ule, Box::new(v), Box::new(Value::Concrete(s.val(v))))
}

/// The values a count pins: its cap when it is capped, else none.
pub open spec fn count_pins(s: State, v: Value) -> Seq<Value> {
    if capped_count(v) {
        seq![cap_value(s, v)]
    } else {
        Seq::empty()
    }
}

/// Under `env`, the word a count stands for: the count itself, no more than
/// its model word where it is capped.
pub open spec fn count_at(s: State, v: Value, env: spec_fn(u64) -> u64) -> u64 {
    if capped_count(v) {
        if v.eval(env) <= s.val(v) {
            v.eval(env)
        } else {
            s.val(v)
        }
    } else {
        v.eval(env)
    }
}

/// Counts pin the same values in states with the same model.
pub proof fn lemma_count_pins_model(s1: State, s2: State, v: Value)
    requires
        s1.model@ == s2.model@,
    ensures
        count_pins(s1, v) == count_pins(s2, v),
        span(s1, v) == span(s2, v),
        forall|env: spec_fn(u64) -> u64| #[trigger] count_at(s1, v, env) == count_at(s2, v, env),
{
    assert(s1.model_env() == s2.model_env());
}

/// How many bytes the count `v` stands for, whether it is guarded, and a
/// value that under every assignment is the number it stands for there (the
/// count itself, or no more than its model word where it is capped). A
/// concrete count is its word. A symbolic count with a bound up to
/// `MAX_LEN` stands for that bound. Any other symbolic count stands for the
/// word it takes in the model, and the path is capped there.
fn take_count(state: &mut State, v: &Value) -> (r: (u64, bool, Value))
    requires
        old(state).wf(),
        v.below(old(state).symbols@.len()),
    ensures
        final(state).wf(),
        r.0 == span(*old(state), *v),
        r.1 == guarded_count(*v),
        forall|env: spec_fn(u64) -> u64| #[trigger] r.2.eval(env) == count_at(*old(state), *v, env),
        forall|env: spec_fn(u64) -> u64| #[trigger] r.2.eval(env) <= r.0,
        r.2.below(old(state).symbols@.len()),
        !guarded_count(*v) ==> r.2.is_concrete(),
        old(state).pinned_at(*final(state), count_pins(*old(state), *v)),
        !capped_count(*v) ==> final(state).constraints@ == old(state).constraints@,
        final(state).memory == old(state).memory,
        final(state).filesystem == old(state).filesystem,
        final(state).pid == old(state).pid,
        final(state).status == old(state).status,
{
    let b = v.upper_bound();
    proof {
        crate::state::lemma_pinned_at_none(*state);
    }
    match v.as_concrete() {
        Some(c) => (c, false, Value::Concrete(c)),
        None => {
            if b <= MAX_LEN {
                proof {
                    assert forall|env: spec_fn(u64) -> u64| #[trigger] v.eval(env) <= b by {
                        crate::value::lemma_bound(*v, env);
                    }
                }
                (b, true, v.duplicate())
            } else {
                let m = v.evaluate(&state.model);
                let cap = Value::binary(BinOp::Ule, v.duplicate(), Value::Concrete(m));
                proof {
                    assert(cap == cap_value(*old(state), *v));
                }
                state.concretize(&cap);
                let len = Value::ite(
                    Value::binary(BinOp::Ule, v.duplicate(), Value::Concrete(m)),
                    v.duplicate(),
                    Value::Concrete(m),
                );
                (m, true, len)
            }
        },
    }
}

/// The bytes of the string at argument 0 before its first concrete zero,
/// among `MAX_LEN` bytes: no assignment makes the string longer.
pub open spec fn str_end(s: State, args: Seq<Value>) -> int {
    crate::memory::known_end(s.memory.region(argv(s, args, 0), MAX_LEN as int)) as int
}

/// The words that the first `n` arguments take in the model; the path is
/// pinned at each of them, in order.
fn concretize_args(state: &mut State, args: &Vec<Value>, n: usize) -> (w: Vec<u64>)
    requires
        old(state).wf(),
        known_args(*old(state), args@, n as int),
    ensures
        final(state).wf(),
        w@.len() == n,
        forall|i: int| 0 <= i < n ==> #[trigger] w@[i] == argv(*old(state), args@, i),
        old(state).pinned_at(*final(state), args@.take(n as int)),
        final(state).memory == old(state).memory,
        final(state).filesystem == old(state).filesystem,
        final(state).pid == old(state).pid,
        final(state).status == old(state).status,
{
    let mut w: Vec<u64> = Vec::new();
    let mut i: usize = 0;
    proof {
        crate::state::lemma_pinned_at_none(*state);
        assert(args@.take(0) =~= Seq::<Value>::empty());
    }
    while i < n
        invariant
            i <= n,
            args@.len() >= n,
            state.wf(),
            known_args(*old(state), args@, n as int),
            state.symbols@ == old(state).symbols@,
            state.memory == old(state).memory,
            state.filesystem == old(state).filesystem,
            state.pid == old(state).pid,
            state.status == old(state).status,
            old(state).pinned_at(*state, args@.take(i as int)),
            w@.len() == i,
            forall|k: int| 0 <= k < i ==> #[trigger] w@[k] == argv(*old(state), args@, k),
        decreases n - i,
    {
        let ghost s1 = *state;
        proof {
            lemma_same_model(*old(state), s1);
            assert(args@[i as int].below(state.symbols@.len()));
        }
        let x = state.concretize(&args[i]);
        proof {
            crate::state::lemma_pinned_at_trans(*old(state), s1, *state, args@.take(i as int), seq![args@[i as int]]);
            assert(args@.take(i as int) + seq![args@[i as int]] =~= args@.take(i + 1));
        }
        w.push(x);
        i = i + 1;
    }
    w
}

/// The word of a concrete value.
fn word_of(v: &Value) -> (r: u64)
    requires
        v.is_concrete(),
    ensures
        r == v.word(),
{
    match v {
        Value::Concrete(c) => *c,
        _ => 0,
    }
}

/// Writes the C string at `args[0]` and a newline to standard output;
/// returns the string's length, an expression over the string's bytes where
/// they are symbolic. The bytes written are those before the first concrete
/// zero (no assignment makes the string longer). A symbolic pointer is taken
/// as it is in the model, and the path is pinned to it.
pub fn puts(state: &mut State, args: Vec<Value>) -> (r: Value)
    requires
        old(state).wf(),
        known_args(*old(state), args@, 1),
        window_in_range(*old(state), args@, 0),
        old(state).filesystem@.write_fits(1, str_end(*old(state), args@) + 1),
    ensures
        final(state).wf(),
        forall|env: spec_fn(u64) -> u64| #[trigger]
            r.eval(env) == zero_scan(
                old(state).memory.region(argv(*old(state), args@, 0), MAX_LEN as int),
                env,
            ),
        r.is_concrete() <==> str_known(old(state).memory, argv(*old(state), args@, 0), MAX_LEN),
        r.is_concrete() ==> r.word() == str_len(
            old(state).memory,
            argv(*old(state), args@, 0),
            MAX_LEN,
        ),
        final(state).filesystem@ == old(state).filesystem@.after_write(
            1,
            old(state).memory.region(argv(*old(state), args@, 0), str_end(*old(state), args@)).push(
                Value::Concrete(10),
            ),
        ),
        final(state).memory == old(state).memory,
        final(state).pid == old(state).pid,
        final(state).status == old(state).status,
        old(state).pinned_at(*final(state), seq![args@[0]]),
        args@[0].is_concrete() ==> final(state).constraints@ == old(state).constraints@,
{
    let addr = state.concretize(&args[0]);
    let length = state.memory.strlen(addr, MAX_LEN);
    let n = length.upper_bound();
    proof {
        let reg = state.memory.region(addr, MAX_LEN as int);
        crate::memory::lemma_known_end(reg, state.model_env());
        crate::memory::lemma_region_below(state.memory, addr, n as int, state.symbols@.len());
        if settled(reg) {
            lemma_settled_len(reg, state.model_env());
            assert(length.eval(state.model_env()) == zero_scan(reg, state.model_env()));
        }
    }
    let mut data = state.memory.read_bytes(addr, n);
    data.push(Value::Concrete(10));  // newline
    proof {
        let k = state.symbols@.len();
        assert forall|i: int| 0 <= i < data@.len() implies #[trigger] data@[i].below(k) by {
            if i < n {
                assert(data@[i] == state.memory.region(addr, n as int)[i]);
            }
        }
    }
    state.filesystem.write(1, data);
    length
}

/// Same as `puts`: the format string is written as it is.
pub fn printf(state: &mut State, args: Vec<Value>) -> (r: Value)
    requires
        old(state).wf(),
        known_args(*old(state), args@, 1),
        window_in_range(*old(state), args@, 0),
        old(state).filesystem@.write_fits(1, str_end(*old(state), args@) + 1),
    ensures
        final(state).wf(),
        forall|env: spec_fn(u64) -> u64| #[trigger]
            r.eval(env) == zero_scan(
                old(state).memory.region(argv(*old(state), args@, 0), MAX_LEN as int),
                env,
            ),
        r.is_concrete() <==> str_known(old(state).memory, argv(*old(state), args@, 0), MAX_LEN),
        r.is_concrete() ==> r.word() == str_len(
            old(state).memory,
            argv(*old(state), args@, 0),
            MAX_LEN,
        ),
        final(state).filesystem@ == old(state).filesystem@.after_write(
            1,
            old(state).memory.region(argv(*old(state), args@, 0), str_end(*old(state), args@)).push(
                Value::Concrete(10),
            ),
        ),
        final(state).memory == old(state).memory,
        final(state).pid == old(state).pid,
        final(state).status == old(state).status,
        old(state).pinned_at(*final(state), seq![args@[0]]),
        args@[0].is_concrete() ==> final(state).constraints@ == old(state).constraints@,
{
    puts(state, args)
}

/// Copies `args[2]` bytes from `args[1]` to `args[0]`; returns `args[0]`.
/// Symbolic pointers and counts are handled as `copy_bytes` says.
pub fn memmove(state: &mut State, args: Vec<Value>) -> (r: Value)
    requires
        old(state).wf(),
        known_args(*old(state), args@, 3),
        copy_fits(*old(state), args@),
    ensures
        final(state).wf(),
        r == args@[0],
        final(state).memory.bytes@ == store(
            old(state).memory.bytes@,
            argv(*old(state), args@, 0),
            copied(*old(state), args@),
        ),
        bytes_changed_pinned(*old(state), *final(state), seq![args@[0], args@[1]] + count_pins(*old(state), args@[2])),
        args@[0].is_concrete() && args@[1].is_concrete() && !capped_count(args@[2]) ==> final(state).constraints@ == old(state).constraints@,
{
    copy_bytes(state, &args);
    args[0].duplicate()
}

/// Copies `args[2]` bytes from `args[1]` to `args[0]`, reading them all
/// first. Symbolic pointers are taken as they are in the model, and the
/// path is pinned to them; a symbolic count is handled as `take_count` says.
fn copy_bytes(state: &mut State, args: &Vec<Value>)
    requires
        old(state).wf(),
        known_args(*old(state), args@, 3),
        copy_fits(*old(state), args@),
    ensures
        final(state).wf(),
        final(state).memory.bytes@ == store(
            old(state).memory.bytes@,
            argv(*old(state), args@, 0),
            copied(*old(state), args@),
        ),
        bytes_changed_pinned(*old(state), *final(state), seq![args@[0], args@[1]] + count_pins(*old(state), args@[2])),
        args@[0].is_concrete() && args@[1].is_concrete() && !capped_count(args@[2]) ==> final(state).constraints@ == old(state).constraints@,
{
    let dst = state.concretize(&args[0]);
    let ghost s1 = *state;
    let src = state.concretize(&args[1]);
    let ghost s2 = *state;
    let (n, guarded, _) = take_count(state, &args[2]);
    proof {
        crate::state::lemma_pinned_at_trans(*old(state), s1, s2, seq![args@[0]], seq![args@[1]]);
        lemma_count_pins_model(s2, *old(state), args@[2]);
        crate::state::lemma_pinned_at_trans(*old(state), s2, *state, seq![args@[0]] + seq![args@[1]], count_pins(*old(state), args@[2]));
        assert(seq![args@[0]] + seq![args@[1]] =~= seq![args@[0], args@[1]]);
        lemma_same_model(*old(state), s1);
        lemma_same_model(*old(state), s2);
        crate::memory::lemma_region_below(state.memory, src, n as int, state.symbols@.len());
    }
    let data = state.memory.read_bytes(src, n);
    if guarded {
        state.memory.write_guarded(dst, &data, &args[2]);
    } else {
        state.memory.write_bytes(dst, &data, n);
        assert(data@.take(n as int) =~= data@);
    }
}

/// Same as `memmove`.
pub fn memcpy(state: &mut State, args: Vec<Value>) -> (r: Value)
    requires
        old(state).wf(),
        known_args(*old(state), args@, 3),
        copy_fits(*old(state), args@),
    ensures
        final(state).wf(),
        r == args@[0],
        final(state).memory.bytes@ == store(
            old(state).memory.bytes@,
            argv(*old(state), args@, 0),
            copied(*old(state), args@),
        ),
        bytes_changed_pinned(*old(state), *final(state), seq![args@[0], args@[1]] + count_pins(*old(state), args@[2])),
        args@[0].is_concrete() && args@[1].is_concrete() && !capped_count(args@[2]) ==> final(state).constraints@ == old(state).constraints@,
{
    copy_bytes(state, &args);
    args[0].duplicate()
}

/// Copies `args[2]` bytes from `args[1]` to `args[0]`; returns 0.
pub fn bcopy(state: &mut State, args: Vec<Value>) -> (r: Value)
    requires
        old(state).wf(),
        known_args(*old(state), args@, 3),
        copy_fits(*old(state), args@),
    ensures
        final(state).wf(),
        r == Value::Concrete(0),
        final(state).memory.bytes@ == store(
            old(state).memory.bytes@,
            argv(*old(state), args@, 0),
            copied(*old(state), args@),
        ),
        bytes_changed_pinned(*old(state), *final(state), seq![args@[0], args@[1]] + count_pins(*old(state), args@[2])),
        args@[0].is_concrete() && args@[1].is_concrete() && !capped_count(args@[2]) ==> final(state).constraints@ == old(state).constraints@,
{
    copy_bytes(state, &args);
    Value::Concrete(0)
}

/// Sets `args[1]` bytes from `args[0]` on to zero, as `memset` with the
/// byte 0 does; returns 0.
pub fn bzero(state: &mut State, args: Vec<Value>) -> (r: Value)
    requires
        old(state).wf(),
        known_args(*old(state), args@, 2),
        in_range(argv(*old(state), args@, 0), span(*old(state), args@[1]) as int),
    ensures
        final(state).wf(),
        r == Value::Concrete(0),
        final(state).memory.bytes@ == store(
            old(state).memory.bytes@,
            argv(*old(state), args@, 0),
            counted(
                old(state).memory,
                argv(*old(state), args@, 0),
                Seq::new(span(*old(state), args@[1]) as nat, |i: int| Value::Concrete(0)),
                args@[1],
            ),
        ),
        bytes_changed_pinned(*old(state), *final(state), seq![args@[0]] + count_pins(*old(state), args@[1])),
        args@[0].is_concrete() && !capped_count(args@[1])
            ==> final(state).constraints@ == old(state).constraints@,
{
    let mut margs: Vec<Value> = Vec::new();
    margs.push(args[0].duplicate());
    margs.push(Value::Concrete(0));
    margs.push(args[1].duplicate());
    proof {
        assert forall|i: int| 0 <= i < 3 implies #[trigger] margs@[i].below(state.symbols@.len()) by {
            if i == 0 {
                assert(margs@[0] == args@[0]);
            } else if i == 2 {
                assert(margs@[2] == args@[1]);
            }
        }
        assert(margs@[0] == args@[0] && margs@[2] == args@[1]);
        assert(Seq::new(span(*state, args@[1]) as nat, |i: int| margs@[1]) =~= Seq::new(
            span(*state, args@[1]) as nat,
            |i: int| Value::Concrete(0),
        ));
    }
    memset(state, margs);
    Value::Concrete(0)
}

/// Copies like `memcpy`; returns `args[0] + args[2]`.
pub fn mempcpy(state: &mut State, args: Vec<Value>) -> (r: Value)
    requires
        old(state).wf(),
        known_args(*old(state), args@, 3),
        copy_fits(*old(state), args@),
    ensures
        final(state).wf(),
        r == crate::value::combine(BinOp::Add, args@[0], args@[2]),
        final(state).memory.bytes@ == store(
            old(state).memory.bytes@,
            argv(*old(state), args@, 0),
            copied(*old(state), args@),
        ),
        bytes_changed_pinned(*old(state), *final(state), seq![args@[0], args@[1]] + count_pins(*old(state), args@[2])),
        args@[0].is_concrete() && args@[1].is_concrete() && !capped_count(args@[2]) ==> final(state).constraints@ == old(state).constraints@,
{
    let mut cargs: Vec<Value> = Vec::new();
    cargs.push(args[0].duplicate());
    cargs.push(args[1].duplicate());
    cargs.push(args[2].duplicate());
    assert(cargs@ =~= args@.subrange(0, 3));
    assert(cargs@[0] == args@[0] && cargs@[1] == args@[1] && cargs@[2] == args@[2]);
    let d = memcpy(state, cargs);
    Value::binary(BinOp::Add, d, args[2].duplicate())
}

/// Copies like `memcpy` (the stop byte `args[3]` is not looked at).
pub fn memccpy(state: &mut State, args: Vec<Value>) -> (r: Value)
    requires
        old(state).wf(),
        known_args(*old(state), args@, 3),
        copy_fits(*old(state), args@),
    ensures
        final(state).wf(),
        r == args@[0],
        final(state).memory.bytes@ == store(
            old(state).memory.bytes@,
            argv(*old(state), args@, 0),
            copied(*old(state), args@),
        ),
        bytes_changed_pinned(*old(state), *final(state), seq![args@[0], args@[1]] + count_pins(*old(state), args@[2])),
        args@[0].is_concrete() && args@[1].is_concrete() && !capped_count(args@[2]) ==> final(state).constraints@ == old(state).constraints@,
{
    memcpy(state, args)
}

/// Stores `args[1]` in each of `args[2]` bytes from `args[0]` on; returns
/// `args[0]`. A symbolic pointer is taken as it is in the model, and the path
/// is pinned to it. A symbolic count is handled as `take_count` says.
pub fn memset(state: &mut State, args: Vec<Value>) -> (r: Value)
    requires
        old(state).wf(),
        known_args(*old(state), args@, 3),
        in_range(argv(*old(state), args@, 0), span(*old(state), args@[2]) as int),
    ensures
        final(state).wf(),
        r == args@[0],
        final(state).memory.bytes@ == store(
            old(state).memory.bytes@,
            argv(*old(state), args@, 0),
            counted(
                old(state).memory,
                argv(*old(state), args@, 0),
                Seq::new(span(*old(state), args@[2]) as nat, |i: int| args@[1]),
                args@[2],
            ),
        ),
        bytes_changed_pinned(*old(state), *final(state), seq![args@[0]] + count_pins(*old(state), args@[2])),
        args@[0].is_concrete() && !capped_count(args@[2])
            ==> final(state).constraints@ == old(state).constraints@,
{
    let addr = state.concretize(&args[0]);
    let ghost s1 = *state;
    let (length, guarded, _) = take_count(state, &args[2]);
    proof {
        lemma_count_pins_model(s1, *old(state), args@[2]);
        crate::state::lemma_pinned_at_trans(*old(state), s1, *state, seq![args@[0]], count_pins(*old(state), args@[2]));
        lemma_same_model(*old(state), s1);
    }
    let mut data: Vec<Value> = Vec::new();
    let mut i: u64 = 0;
    while i < length
        invariant
            i <= length,
            args.len() >= 3,
            data@ == Seq::new(i as nat, |k: int| args@[1]),
        decreases length - i,
    {
        data.push(args[1].duplicate());
        i = i + 1;
        assert(data@ =~= Seq::new(i as nat, |k: int| args@[1]));
    }
    assert(crate::memory::all_below(data@, state.symbols@.len()));
    if guarded {
        state.memory.write_guarded(addr, &data, &args[2]);
    } else {
        state.memory.write_bytes(addr, &data, length);
        assert(data@.take(length as int) =~= data@);
    }
    args[0].duplicate()
}

/// Replaces each of `args[1]` bytes from `args[0]` on by itself xor 42;
/// returns 0. A symbolic pointer is taken as it is in the model, and the
/// path is pinned to it. A symbolic count is handled as `take_count` says.
pub fn memfrob(state: &mut State, args: Vec<Value>) -> (r: Value)
    requires
        old(state).wf(),
        known_args(*old(state), args@, 2),
        in_range(argv(*old(state), args@, 0), span(*old(state), args@[1]) as int),
    ensures
        final(state).wf(),
        r == Value::Concrete(0),
        final(state).memory.bytes@ == store(
            old(state).memory.bytes@,
            argv(*old(state), args@, 0),
            counted(
                old(state).memory,
                argv(*old(state), args@, 0),
                old(state).memory.region(
                    argv(*old(state), args@, 0),
                    span(*old(state), args@[1]) as int,
                ).map_values(
                    |v: Value| crate::value::combine(BinOp::Xor, v, Value::Concrete(0x2a)),
                ),
                args@[1],
            ),
        ),
        bytes_changed_pinned(*old(state), *final(state), seq![args@[0]] + count_pins(*old(state), args@[1])),
        args@[0].is_concrete() && !capped_count(args@[1])
            ==> final(state).constraints@ == old(state).constraints@,
{
    let addr = state.concretize(&args[0]);
    let ghost s1 = *state;
    let (num, guarded, _) = take_count(state, &args[1]);
    proof {
        lemma_count_pins_model(s1, *old(state), args@[1]);
        crate::state::lemma_pinned_at_trans(*old(state), s1, *state, seq![args@[0]], count_pins(*old(state), args@[1]));
        lemma_same_model(*old(state), s1);
    }
    let data = state.memory.read_bytes(addr, num);
    let ghost src = data@;
    let mut new_data: Vec<Value> = Vec::new();
    let mut i: usize = 0;
    while i < data.len()
        invariant
            i <= data.len(),
            data@ == src,
            new_data@ == src.take(i as int).map_values(
                |v: Value| crate::value::combine(BinOp::Xor, v, Value::Concrete(0x2a)),
            ),
        decreases data.len() - i,
    {
        let d = data[i].duplicate();
        new_data.push(Value::binary(BinOp::Xor, d, Value::Concrete(0x2a)));
        i = i + 1;
        assert(new_data@ =~= src.take(i as int).map_values(
            |v: Value| crate::value::combine(BinOp::Xor, v, Value::Concrete(0x2a)),
        ));
    }
    assert(src.take(data.len() as int) =~= src);
    proof {
        let n = state.symbols@.len();
        crate::memory::lemma_region_below(state.memory, addr, num as int, n);
        assert forall|i: int| 0 <= i < new_data@.len() implies #[trigger] new_data@[i].below(n) by {
            assert(src[i].below(n));
            assert(new_data@[i] == crate::value::combine(BinOp::Xor, src[i], Value::Concrete(0x2a)));
            crate::value::lemma_combine_below(BinOp::Xor, src[i], Value::Concrete(0x2a), n);
        }
    }
    if guarded {
        state.memory.write_guarded(addr, &new_data, &args[1]);
    } else {
        state.memory.write_bytes(addr, &new_data, num);
        assert(new_data@.take(num as int) =~= new_data@);
    }
    Value::Concrete(0)
}

/// The length of the C string at `args[0]`, looking at no more than
/// `MAX_LEN` bytes. A symbolic pointer is taken as it is in the model, and
/// the path is pinned to it.
pub fn strlen(state: &mut State, args: Vec<Value>) -> (r: Value)
    requires
        old(state).wf(),
        known_args(*old(state), args@, 1),
        window_in_range(*old(state), args@, 0),
    ensures
        final(state).wf(),
        forall|env: spec_fn(u64) -> u64| #[trigger]
            r.eval(env) == zero_scan(window(old(state).memory, argv(*old(state), args@, 0)), env),
        r.is_concrete() <==> str_known(old(state).memory, argv(*old(state), args@, 0), MAX_LEN),
        r.is_concrete() ==> r.word() == str_len(old(state).memory, argv(*old(state), args@, 0), MAX_LEN),
        final(state).memory == old(state).memory,
        final(state).filesystem == old(state).filesystem,
        final(state).pid == old(state).pid,
        final(state).status == old(state).status,
        old(state).pinned_at(*final(state), seq![args@[0]]),
{
    let w = concretize_args(state, &args, 1);
    assert(args@.take(1) =~= seq![args@[0]]);
    let addr = w[0];
    let r = state.memory.strlen(addr, MAX_LEN);
    proof {
        let env0 = |x: u64| 0u64;
        if r.is_concrete() {
            lemma_settled_len(state.memory.region(addr, MAX_LEN as int), env0);
            assert(r.eval(env0) == r.word());
        }
    }
    r
}

/// The length of the C string at `args[0]`, looking at no more than
/// `args[1]` bytes. A symbolic pointer or bound is taken as it is in the
/// model, and the path is pinned to it.
pub fn strnlen(state: &mut State, args: Vec<Value>) -> (r: Value)
    requires
        old(state).wf(),
        known_args(*old(state), args@, 2),
        in_range(argv(*old(state), args@, 0), argv(*old(state), args@, 1) as int),
    ensures
        final(state).wf(),
        forall|env: spec_fn(u64) -> u64| #[trigger]
            r.eval(env) == zero_scan(
                bounded_window(old(state).memory, argv(*old(state), args@, 0), argv(*old(state), args@, 1)),
                env,
            ),
        r.is_concrete() <==> str_known(old(state).memory, argv(*old(state), args@, 0), argv(*old(state), args@, 1)),
        r.is_concrete() ==> r.word() == str_len(
            old(state).memory,
            argv(*old(state), args@, 0),
            argv(*old(state), args@, 1),
        ),
        final(state).memory == old(state).memory,
        final(state).filesystem == old(state).filesystem,
        final(state).pid == old(state).pid,
        final(state).status == old(state).status,
        old(state).pinned_at(*final(state), seq![args@[0], args@[1]]),
{
    let w = concretize_args(state, &args, 2);
    assert(args@.take(2) =~= seq![args@[0], args@[1]]);
    let addr = w[0];
    let max = w[1];
    let r = state.memory.strlen(addr, max);
    proof {
        let env0 = |x: u64| 0u64;
        if r.is_concrete() {
            lemma_settled_len(state.memory.region(addr, max as int), env0);
            assert(r.eval(env0) == r.word());
        }
    }
    r
}

/// Everything but memory is as it was.
pub open spec fn only_memory_changed(s1: State, s2: State) -> bool {
    &&& s2.filesystem == s1.filesystem
    &&& s2.pid == s1.pid
    &&& s2.status == s1.status
    &&& s2.symbols@ == s1.symbols@
    &&& s2.model@ == s1.model@
    &&& s2.constraints@ == s1.constraints@
}

/// Fills `args[0]` with 256 new symbolic bytes, as a line read from input;
/// returns `args[0]`. A symbolic pointer is taken as it is in the model, and
/// the path is pinned to it before the new symbols are made.
pub fn gets(state: &mut State, args: Vec<Value>) -> (r: Value)
    requires
        old(state).wf(),
        known_args(*old(state), args@, 1),
        in_range(argv(*old(state), args@, 0), 256),
    ensures
        final(state).wf(),
        r == args@[0],
        final(state).symbols@ == old(state).symbols@ + Seq::new(
            256,
            |i: int|
                crate::state::SymbolInfo {
                    kind: crate::state::SymbolKind::Input(argv(*old(state), args@, 0), i as u64),
                    width: crate::value::Width::Byte,
                },
        ),
        final(state).memory.bytes@ == store(
            old(state).memory.bytes@,
            argv(*old(state), args@, 0),
            Seq::new(
                256,
                |i: int|
                    Value::Symbol((old(state).symbols.len() + i) as u64, crate::value::Width::Byte),
            ),
        ),
        final(state).memory.heap_next == old(state).memory.heap_next,
        final(state).memory.blocks@ == old(state).memory.blocks@,
        final(state).filesystem == old(state).filesystem,
        final(state).pid == old(state).pid,
        final(state).status == old(state).status,
        final(state).constraints@ == old(state).constraints@ + old(state).pins(seq![args@[0]]),
        final(state).model@ == old(state).model@ + Seq::new(256, |i: int| 0u64),
{
    let addr = state.concretize(&args[0]);
    let ghost s1 = *state;
    let ghost s0 = state.symbols@;
    let mut data: Vec<Value> = Vec::new();
    let mut i: u64 = 0;
    while i < 256
        invariant
            i <= 256,
            state.wf(),
            state.memory == s1.memory,
            state.filesystem == s1.filesystem,
            state.pid == s1.pid,
            state.status == s1.status,
            state.constraints == s1.constraints,
            state.model@ == s1.model@ + Seq::new(i as nat, |k: int| 0u64),
            s0 == s1.symbols@,
            state.symbols@ == s0 + Seq::new(
                i as nat,
                |k: int|
                    crate::state::SymbolInfo {
                        kind: crate::state::SymbolKind::Input(addr, k as u64),
                        width: crate::value::Width::Byte,
                    },
            ),
            data@ == Seq::new(
                i as nat,
                |k: int| Value::Symbol((s0.len() + k) as u64, crate::value::Width::Byte),
            ),
        decreases 256 - i,
    {
        let v = state.fresh_symbol(
            crate::state::SymbolKind::Input(addr, i),
            crate::value::Width::Byte,
            0,
        );
        data.push(v);
        i = i + 1;
        assert(state.model@ =~= s1.model@ + Seq::new(i as nat, |k: int| 0u64));
        assert(data@ =~= Seq::new(
            i as nat,
            |k: int| Value::Symbol((s0.len() + k) as u64, crate::value::Width::Byte),
        ));
        assert(state.symbols@ =~= s0 + Seq::new(
            i as nat,
            |k: int|
                crate::state::SymbolInfo {
                    kind: crate::state::SymbolKind::Input(addr, k as u64),
                    width: crate::value::Width::Byte,
                },
        ));
    }
    state.memory.write_bytes(addr, &data, 256);
    assert(data@.take(256) =~= data@);
    args[0].duplicate()
}

/// The bytes a copy of the C string at `src` (among `max` bytes) writes
/// when `extra` more bytes are copied after it: up to its first concrete
/// zero, plus `extra`.
pub open spec fn prefix_end(m: Memory, src: u64, max: u64, extra: int) -> int {
    crate::memory::known_end(bounded_window(m, src, max)) + extra
}

/// `m2` is `m1` after the C string at `src` (its length taken among `max`
/// bytes) and `extra` more bytes were copied to `dst`. Under every
/// assignment, each byte the copy may write holds the source byte where it
/// is within the string's length plus `extra`, and what it held elsewhere;
/// no other byte changes; and where the string's bytes fix its length, the
/// bytes written are exactly the source's.
pub open spec fn prefix_copied(m1: Memory, m2: Memory, dst: u64, src: u64, max: u64, extra: int) -> bool {
    &&& forall|x: u64|
        (x < dst || x >= dst + prefix_end(m1, src, max, extra)) ==> #[trigger] m2.byte_at(x)
            == m1.byte_at(x)
    &&& forall|i: int, env: spec_fn(u64) -> u64|
        0 <= i < prefix_end(m1, src, max, extra) ==> #[trigger] m2.byte_at((dst + i) as u64).eval(env)
            == (if i < zero_scan(bounded_window(m1, src, max), env) + extra {
            m1.byte_at((src + i) as u64).eval(env)
        } else {
            m1.byte_at((dst + i) as u64).eval(env)
        })
    &&& str_known(m1, src, max) ==> m2.bytes@ == store(
        m1.bytes@,
        dst,
        m1.region(src, str_len(m1, src, max) + extra),
    )
}

/// Copies the C string at `src` (its length taken among `max` bytes) and
/// `extra` more bytes to `dst`; gives the string's length, an expression
/// over its bytes where they are symbolic. Each byte up to the string's
/// first concrete zero (plus `extra`) is written guarded by that length.
fn copy_prefix(state: &mut State, dst: u64, src: u64, max: u64, extra: u64) -> (len: Value)
    requires
        old(state).wf(),
        extra <= 1,
        in_range(src, max as int),
        prefix_end(old(state).memory, src, max, extra as int) <= u64::MAX,
        in_range(dst, prefix_end(old(state).memory, src, max, extra as int)),
        in_range(src, prefix_end(old(state).memory, src, max, extra as int)),
    ensures
        final(state).wf(),
        prefix_copied(old(state).memory, final(state).memory, dst, src, max, extra as int),
        string_length(len, bounded_window(old(state).memory, src, max)),
        len.is_concrete() <==> str_known(old(state).memory, src, max),
        final(state).memory.heap_next == old(state).memory.heap_next,
        final(state).memory.blocks@ == old(state).memory.blocks@,
        final(state).filesystem == old(state).filesystem,
        final(state).pid == old(state).pid,
        final(state).status == old(state).status,
        final(state).symbols == old(state).symbols,
        final(state).model == old(state).model,
        final(state).constraints == old(state).constraints,
{
    let ghost m1 = state.memory;
    let ghost w = bounded_window(m1, src, max);
    let l = state.memory.strlen(src, max);
    let b = l.upper_bound();
    proof {
        crate::memory::lemma_known_end(w, |x: u64| 0u64);
    }
    let n = b + extra;
    proof {
        crate::memory::lemma_region_below(state.memory, src, n as int, state.symbols@.len());
    }
    let data = state.memory.read_bytes(src, n);
    let count = if extra == 0 {
        l.duplicate()
    } else {
        Value::binary(BinOp::Add, l.duplicate(), Value::Concrete(1))
    };
    let ghost gl = l;
    let ghost gcount = count;
    proof {
        assert forall|env: spec_fn(u64) -> u64| #[trigger] gcount.eval(env) == zero_scan(w, env) + extra by {
            crate::memory::lemma_known_end(w, env);
            assert(gl.eval(env) == zero_scan(w, env));
        }
        assert(gcount.is_concrete() <==> gl.is_concrete());
    }
    match count.as_concrete() {
        Some(k) => {
            proof {
                lemma_settled_len(w, |x: u64| 0u64);
                crate::memory::lemma_settled_end(w);
                assert(k == gcount.eval(|x: u64| 0u64));
                assert(k == n);
            }
            state.memory.write_bytes(dst, &data, k);
            proof {
                assert(data@.take(k as int) =~= data@);
                assert forall|x: u64| (x < dst || x >= dst + n) implies #[trigger] state.memory.byte_at(x)
                    == m1.byte_at(x) by {
                    crate::memory::lemma_write_frame(m1, state.memory, dst, data@, x);
                }
                crate::memory::lemma_read_after_write(m1, state.memory, dst, data@);
                assert forall|i: int, env: spec_fn(u64) -> u64|
                    0 <= i < n implies #[trigger] state.memory.byte_at((dst + i) as u64).eval(env)
                        == (if i < zero_scan(w, env) + extra {
                        m1.byte_at((src + i) as u64).eval(env)
                    } else {
                        m1.byte_at((dst + i) as u64).eval(env)
                    }) by {
                    lemma_settled_len(w, env);
                    assert(state.memory.region(dst, n as int)[i] == data@[i]);
                }
            }
        },
        None => {
            state.memory.write_guarded(dst, &data, &count);
            proof {
                let g = m1.guarded(dst, data@, gcount);
                assert forall|x: u64| (x < dst || x >= dst + n) implies #[trigger] state.memory.byte_at(x)
                    == m1.byte_at(x) by {
                    crate::memory::lemma_write_frame(m1, state.memory, dst, g, x);
                }
                crate::memory::lemma_read_after_write(m1, state.memory, dst, g);
                assert forall|i: int, env: spec_fn(u64) -> u64|
                    0 <= i < n implies #[trigger] state.memory.byte_at((dst + i) as u64).eval(env)
                        == (if i < zero_scan(w, env) + extra {
                        m1.byte_at((src + i) as u64).eval(env)
                    } else {
                        m1.byte_at((dst + i) as u64).eval(env)
                    }) by {
                    assert(state.memory.region(dst, n as int)[i] == g[i]);
                    assert(gcount.eval(env) == zero_scan(w, env) + extra);
                    let c = crate::value::combine(BinOp::Ult, Value::Concrete(i as u64), gcount);
                    assert(!gcount.is_concrete());
                    assert(c == Value::Binary(
                        BinOp::Ult,
                        Box::new(Value::Concrete(i as u64)),
                        Box::new(gcount),
                    ));
                    assert(Value::Concrete(i as u64).eval(env) == i as u64);
                    assert(c.eval(env) == crate::value::apply(
                        BinOp::Ult,
                        Value::Concrete(i as u64).eval(env),
                        gcount.eval(env),
                    ));
                    assert(c.eval(env) == flag((i as u64) < gcount.eval(env)));
                    assert(g[i] == Value::Ite(
                        Box::new(c),
                        Box::new(data@[i]),
                        Box::new(m1.byte_at((dst + i) as u64)),
                    ));
                    assert(data@[i] == m1.byte_at((src + i) as u64));
                }
            }
        },
    }
    l
}

/// Copies the C string at `args[1]` with its terminator to `args[0]`;
/// returns `args[0]`. Symbolic pointers are taken as they are in the model,
/// and the path is pinned to them. Where the string's bytes are symbolic,
/// each byte up to its first concrete zero is copied guarded by its length
/// (see `prefix_copied`).
pub fn strcpy(state: &mut State, args: Vec<Value>) -> (r: Value)
    requires
        old(state).wf(),
        known_args(*old(state), args@, 2),
        window_in_range(*old(state), args@, 1),
        in_range(
            argv(*old(state), args@, 0),
            prefix_end(old(state).memory, argv(*old(state), args@, 1), MAX_LEN, 1),
        ),
        in_range(
            argv(*old(state), args@, 1),
            prefix_end(old(state).memory, argv(*old(state), args@, 1), MAX_LEN, 1),
        ),
    ensures
        final(state).wf(),
        r == args@[0],
        prefix_copied(
            old(state).memory,
            final(state).memory,
            argv(*old(state), args@, 0),
            argv(*old(state), args@, 1),
            MAX_LEN,
            1,
        ),
        bytes_changed_pinned(*old(state), *final(state), seq![args@[0], args@[1]]),
{
    let w = concretize_args(state, &args, 2);
    assert(args@.take(2) =~= seq![args@[0], args@[1]]);
    proof {
        crate::memory::lemma_known_end(bounded_window(state.memory, w[1], MAX_LEN), |x: u64| 0u64);
    }
    copy_prefix(state, w[0], w[1], MAX_LEN, 1);
    args[0].duplicate()
}

/// Copies like `strcpy`; returns `args[0]` plus the string's length, an
/// expression over the string's bytes where they are symbolic.
pub fn stpcpy(state: &mut State, args: Vec<Value>) -> (r: Value)
    requires
        old(state).wf(),
        known_args(*old(state), args@, 2),
        window_in_range(*old(state), args@, 1),
        in_range(
            argv(*old(state), args@, 0),
            prefix_end(old(state).memory, argv(*old(state), args@, 1), MAX_LEN, 1),
        ),
        in_range(
            argv(*old(state), args@, 1),
            prefix_end(old(state).memory, argv(*old(state), args@, 1), MAX_LEN, 1),
        ),
    ensures
        final(state).wf(),
        forall|env: spec_fn(u64) -> u64| #[trigger]
            r.eval(env) == wadd(
                args@[0].eval(env),
                zero_scan(bounded_window(old(state).memory, argv(*old(state), args@, 1), MAX_LEN), env) as u64,
            ),
        r.is_concrete() <==> args@[0].is_concrete() && str_known(
            old(state).memory,
            argv(*old(state), args@, 1),
            MAX_LEN,
        ),
        prefix_copied(
            old(state).memory,
            final(state).memory,
            argv(*old(state), args@, 0),
            argv(*old(state), args@, 1),
            MAX_LEN,
            1,
        ),
        bytes_changed_pinned(*old(state), *final(state), seq![args@[0], args@[1]]),
{
    let w = concretize_args(state, &args, 2);
    assert(args@.take(2) =~= seq![args@[0], args@[1]]);
    proof {
        crate::memory::lemma_known_end(bounded_window(state.memory, w[1], MAX_LEN), |x: u64| 0u64);
    }
    let len = copy_prefix(state, w[0], w[1], MAX_LEN, 1);
    Value::binary(BinOp::Add, args[0].duplicate(), len)
}

/// A new heap block holding a copy of `n` bytes at `src`: its address (0
/// when the heap is full, and then the bytes go to address 0).
fn duplicate_bytes(state: &mut State, src: u64, n: u64) -> (p: u64)
    requires
        old(state).wf(),
        in_range(src, n as int),
    ensures
        final(state).wf(),
        p == old(state).memory.next_block(n),
        final(state).memory.heap_next == (if fits(old(state).memory.heap_next, n) {
            old(state).memory.heap_next + chunk_size(n)
        } else {
            old(state).memory.heap_next as int
        }),
        final(state).memory.blocks@ == (if fits(old(state).memory.heap_next, n) {
            old(state).memory.blocks@.insert(old(state).memory.heap_next, n)
        } else {
            old(state).memory.blocks@
        }),
        final(state).memory.bytes@ == store(
            old(state).memory.bytes@,
            p,
            old(state).memory.region(src, n as int),
        ),
        only_memory_changed(*old(state), *final(state)),
        old(state).pinned_to(*final(state)),
        old(state).pinned_at(*final(state), Seq::empty()),
{
    let mut margs: Vec<Value> = Vec::new();
    margs.push(Value::Concrete(n));
    assert(margs@[0] == Value::Concrete(n));
    let pv = malloc(state, margs);
    proof {
        crate::state::lemma_pins_one(*old(state), Value::Concrete(n));
        assert(state.constraints@ =~= old(state).constraints@);
    }
    let p = word_of(&pv);
    proof {
        if fits(old(state).memory.heap_next, n) {
            assert(p + chunk_size(n) <= crate::memory::HEAP_END);
        }
    }
    state.memory.memmove(p, src, n);
    proof {
        crate::state::lemma_pinned_at_none(*old(state));
    }
    assert(state.constraints@.subrange(0, old(state).constraints@.len() as int) =~= old(
        state,
    ).constraints@);
    p
}

/// A heap copy of the C string at `args[0]` with its terminator: its
/// address, or 0 when the heap is full. The bytes copied are those up to
/// the first concrete zero, so the copy holds the same string under every
/// assignment. A symbolic pointer is taken as it is in the model, and the
/// path is pinned to it.
pub fn strdup(state: &mut State, args: Vec<Value>) -> (r: Value)
    requires
        old(state).wf(),
        known_args(*old(state), args@, 1),
        window_in_range(*old(state), args@, 0),
        in_range(argv(*old(state), args@, 0), str_end(*old(state), args@) + 1),
    ensures
        r == Value::Concrete(old(state).memory.next_block((str_end(*old(state), args@) + 1) as u64)),
        final(state).wf(),
        old(state).memory.allocated(
            Memory { bytes: old(state).memory.bytes, ..final(state).memory },
            (str_end(*old(state), args@) + 1) as u64,
        ),
        final(state).memory.bytes@ == store(
            old(state).memory.bytes@,
            old(state).memory.next_block((str_end(*old(state), args@) + 1) as u64),
            old(state).memory.region(argv(*old(state), args@, 0), str_end(*old(state), args@) + 1),
        ),
        final(state).filesystem == old(state).filesystem,
        final(state).pid == old(state).pid,
        final(state).status == old(state).status,
        old(state).pinned_at(*final(state), seq![args@[0]]),
        args@[0].is_concrete() ==> final(state).constraints@ == old(state).constraints@,
{
    let src = state.concretize(&args[0]);
    let ghost s1 = *state;
    let len = state.memory.strlen(src, MAX_LEN);
    proof {
        crate::memory::lemma_known_end(state.memory.region(src, MAX_LEN as int), state.model_env());
    }
    let length = len.upper_bound() + 1;
    let p = duplicate_bytes(state, src, length);
    proof {
        crate::state::lemma_pinned_at_trans(*old(state), s1, *state, seq![args@[0]], Seq::empty());
        assert(seq![args@[0]] + Seq::<Value>::empty() =~= seq![args@[0]]);
    }
    Value::Concrete(p)
}

/// Like `strdup`; returns the copy's address plus the string's length plus
/// one, an expression over the string's bytes where they are symbolic.
pub fn strdupa(state: &mut State, args: Vec<Value>) -> (r: Value)
    requires
        old(state).wf(),
        known_args(*old(state), args@, 1),
        window_in_range(*old(state), args@, 0),
        in_range(argv(*old(state), args@, 0), str_end(*old(state), args@) + 1),
    ensures
        forall|env: spec_fn(u64) -> u64| #[trigger]
            r.eval(env) == wadd(
                old(state).memory.next_block((str_end(*old(state), args@) + 1) as u64),
                wadd(
                    zero_scan(
                        old(state).memory.region(argv(*old(state), args@, 0), MAX_LEN as int),
                        env,
                    ) as u64,
                    1,
                ),
            ),
        r.is_concrete() <==> str_known(old(state).memory, argv(*old(state), args@, 0), MAX_LEN),
        final(state).wf(),
        old(state).memory.allocated(
            Memory { bytes: old(state).memory.bytes, ..final(state).memory },
            (str_end(*old(state), args@) + 1) as u64,
        ),
        final(state).memory.bytes@ == store(
            old(state).memory.bytes@,
            old(state).memory.next_block((str_end(*old(state), args@) + 1) as u64),
            old(state).memory.region(argv(*old(state), args@, 0), str_end(*old(state), args@) + 1),
        ),
        final(state).filesystem == old(state).filesystem,
        final(state).pid == old(state).pid,
        final(state).status == old(state).status,
        old(state).pinned_at(*final(state), seq![args@[0]]),
        args@[0].is_concrete() ==> final(state).constraints@ == old(state).constraints@,
{
    let src = state.concretize(&args[0]);
    let ghost s1 = *state;
    let len = state.memory.strlen(src, MAX_LEN);
    proof {
        crate::memory::lemma_known_end(state.memory.region(src, MAX_LEN as int), state.model_env());
    }
    let length = len.upper_bound() + 1;
    let p = duplicate_bytes(state, src, length);
    proof {
        crate::state::lemma_pinned_at_trans(*old(state), s1, *state, seq![args@[0]], Seq::empty());
        assert(seq![args@[0]] + Seq::<Value>::empty() =~= seq![args@[0]]);
    }
    Value::binary(
        BinOp::Add,
        Value::Concrete(p),
        Value::binary(BinOp::Add, len, Value::Concrete(1)),
    )
}

/// A new heap block holding a copy of the C string at `src` (its length
/// taken among `max` bytes, no terminator): its address (0 when the heap is
/// full, and then the bytes go to address 0) and the string's length. The
/// block is as large as the string can be; each byte is copied guarded by
/// the length (see `prefix_copied`).
fn duplicate_prefix(state: &mut State, src: u64, max: u64) -> (r: (u64, Value))
    requires
        old(state).wf(),
        in_range(src, max as int),
    ensures
        final(state).wf(),
        r.0 == old(state).memory.next_block(prefix_end(old(state).memory, src, max, 0) as u64),
        old(state).memory.allocated(
            Memory { bytes: old(state).memory.bytes, ..final(state).memory },
            prefix_end(old(state).memory, src, max, 0) as u64,
        ),
        prefix_copied(old(state).memory, final(state).memory, r.0, src, max, 0),
        string_length(r.1, bounded_window(old(state).memory, src, max)),
        r.1.is_concrete() <==> str_known(old(state).memory, src, max),
        final(state).filesystem == old(state).filesystem,
        final(state).pid == old(state).pid,
        final(state).status == old(state).status,
        final(state).symbols@ == old(state).symbols@,
        final(state).model@ == old(state).model@,
        final(state).constraints@ == old(state).constraints@,
{
    let ghost m0 = state.memory;
    let b = state.memory.strlen(src, max).upper_bound();
    proof {
        crate::memory::lemma_known_end(bounded_window(m0, src, max), |x: u64| 0u64);
    }
    let mut margs: Vec<Value> = Vec::new();
    margs.push(Value::Concrete(b));
    assert(margs@[0] == Value::Concrete(b));
    let pv = malloc(state, margs);
    proof {
        crate::state::lemma_pins_one(*old(state), Value::Concrete(b));
        assert(state.constraints@ =~= old(state).constraints@);
    }
    let p = word_of(&pv);
    let ghost m1 = state.memory;
    proof {
        assert forall|a: u64, n: int| #[trigger] m1.region(a, n) == m0.region(a, n) by {
            assert(m1.region(a, n) =~= m0.region(a, n));
        }
        assert(bounded_window(m1, src, max) == bounded_window(m0, src, max));
        if fits(m0.heap_next, b) {
            assert(p + chunk_size(b) <= crate::memory::HEAP_END);
        }
    }
    let len = copy_prefix(state, p, src, max, 0);
    proof {
        assert forall|x: u64| #[trigger] m1.byte_at(x) == m0.byte_at(x) by {}
        if str_known(m0, src, max) {
            let k = str_len(m0, src, max);
            assert(m1.region(src, k) == m0.region(src, k));
        }
        assert forall|i: int, env: spec_fn(u64) -> u64|
            0 <= i < prefix_end(m0, src, max, 0) implies #[trigger] state.memory.byte_at((p + i) as u64).eval(env)
                == (if i < zero_scan(bounded_window(m0, src, max), env) + 0 {
                m0.byte_at((src + i) as u64).eval(env)
            } else {
                m0.byte_at((p + i) as u64).eval(env)
            }) by {
            assert(state.memory.byte_at((p + i) as u64).eval(env) == (if i < zero_scan(
                bounded_window(m1, src, max),
                env,
            ) + 0 {
                m1.byte_at((src + i) as u64).eval(env)
            } else {
                m1.byte_at((p + i) as u64).eval(env)
            }));
        }
    }
    (p, len)
}

/// A heap copy of the first bytes of the C string at `args[0]`, as many as
/// its length among no more than `args[1]` bytes, without a terminator: its
/// address, or 0 when the heap is full. The block is as large as the string
/// can be; where the string's bytes are symbolic each byte is copied guarded
/// by its length (see `prefix_copied`). A symbolic pointer or bound is taken
/// as it is in the model, and the path is pinned to it.
pub fn strndup(state: &mut State, args: Vec<Value>) -> (r: Value)
    requires
        old(state).wf(),
        known_args(*old(state), args@, 2),
        in_range(argv(*old(state), args@, 0), argv(*old(state), args@, 1) as int),
    ensures
        final(state).wf(),
        r == Value::Concrete(old(state).memory.next_block(prefix_end(old(state).memory, argv(*old(state), args@, 0), argv(*old(state), args@, 1), 0) as u64)),
        old(state).memory.allocated(
            Memory { bytes: old(state).memory.bytes, ..final(state).memory },
            prefix_end(old(state).memory, argv(*old(state), args@, 0), argv(*old(state), args@, 1), 0) as u64,
        ),
        prefix_copied(
            old(state).memory,
            final(state).memory,
            old(state).memory.next_block(prefix_end(old(state).memory, argv(*old(state), args@, 0), argv(*old(state), args@, 1), 0) as u64),
            argv(*old(state), args@, 0),
            argv(*old(state), args@, 1),
            0,
        ),
        final(state).filesystem == old(state).filesystem,
        final(state).pid == old(state).pid,
        final(state).status == old(state).status,
        old(state).pinned_at(*final(state), seq![args@[0], args@[1]]),
{
    let w = concretize_args(state, &args, 2);
    assert(args@.take(2) =~= seq![args@[0], args@[1]]);
    let (p, len) = duplicate_prefix(state, w[0], w[1]);
    Value::Concrete(p)
}

/// Copies like `strndup`; returns the copy's address plus the string's
/// length, an expression over the string's bytes where they are symbolic.
pub fn strndupa(state: &mut State, args: Vec<Value>) -> (r: Value)
    requires
        old(state).wf(),
        known_args(*old(state), args@, 2),
        in_range(argv(*old(state), args@, 0), argv(*old(state), args@, 1) as int),
    ensures
        final(state).wf(),
        forall|env: spec_fn(u64) -> u64| #[trigger]
            r.eval(env) == wadd(
                old(state).memory.next_block(prefix_end(old(state).memory, argv(*old(state), args@, 0), argv(*old(state), args@, 1), 0) as u64),
                zero_scan(
                    bounded_window(old(state).memory, argv(*old(state), args@, 0), argv(*old(state), args@, 1)),
                    env,
                ) as u64,
            ),
        r.is_concrete() <==> str_known(old(state).memory, argv(*old(state), args@, 0), argv(*old(state), args@, 1)),
        old(state).memory.allocated(
            Memory { bytes: old(state).memory.bytes, ..final(state).memory },
            prefix_end(old(state).memory, argv(*old(state), args@, 0), argv(*old(state), args@, 1), 0) as u64,
        ),
        prefix_copied(
            old(state).memory,
            final(state).memory,
            old(state).memory.next_block(prefix_end(old(state).memory, argv(*old(state), args@, 0), argv(*old(state), args@, 1), 0) as u64),
            argv(*old(state), args@, 0),
            argv(*old(state), args@, 1),
            0,
        ),
        final(state).filesystem == old(state).filesystem,
        final(state).pid == old(state).pid,
        final(state).status == old(state).status,
        old(state).pinned_at(*final(state), seq![args@[0], args@[1]]),
{
    let w = concretize_args(state, &args, 2);
    assert(args@.take(2) =~= seq![args@[0], args@[1]]);
    let (p, len) = duplicate_prefix(state, w[0], w[1]);
    Value::binary(BinOp::Add, Value::Concrete(p), len)
}

/// Leaves the string as it is and returns `args[0]`.
pub fn strfry(_state: &mut State, args: Vec<Value>) -> (r: Value)
    requires
        args@.len() >= 1,
    ensures
        r == args@[0],
        *final(_state) == *old(_state),
{
    args[0].duplicate()
}

/// Copies the first bytes of the C string at `args[1]`, as many as its
/// length among no more than `args[2]` bytes and without a terminator, to
/// `args[0]`; returns `args[0]`. Symbolic pointers and the bound are taken
/// as they are in the model, and the path is pinned to them. Where the
/// string's bytes are symbolic, each byte is copied guarded by its length
/// (see `prefix_copied`).
pub fn strncpy(state: &mut State, args: Vec<Value>) -> (r: Value)
    requires
        old(state).wf(),
        known_args(*old(state), args@, 3),
        in_range(argv(*old(state), args@, 1), argv(*old(state), args@, 2) as int),
        in_range(
            argv(*old(state), args@, 0),
            prefix_end(old(state).memory, argv(*old(state), args@, 1), argv(*old(state), args@, 2), 0),
        ),
    ensures
        final(state).wf(),
        r == args@[0],
        prefix_copied(
            old(state).memory,
            final(state).memory,
            argv(*old(state), args@, 0),
            argv(*old(state), args@, 1),
            argv(*old(state), args@, 2),
            0,
        ),
        bytes_changed_pinned(*old(state), *final(state), seq![args@[0], args@[1], args@[2]]),
{
    let w = concretize_args(state, &args, 3);
    assert(args@.take(3) =~= seq![args@[0], args@[1], args@[2]]);
    proof {
        crate::memory::lemma_known_end(bounded_window(state.memory, w[1], w[2]), |x: u64| 0u64);
    }
    copy_prefix(state, w[0], w[1], w[2], 0);
    args[0].duplicate()
}

/// Appends the C string at `args[1]`, with its terminator, to the one at
/// `args[0]`; returns `args[0]`. Symbolic pointers are taken as they are in
/// the model, and so is the length of the string at `args[0]` (the address
/// the copy goes to); the path is pinned to each. Where the appended
/// string's bytes are symbolic, each byte is copied guarded by its length
/// (see `prefix_copied`).
pub fn strcat(state: &mut State, args: Vec<Value>) -> (r: Value)
    requires
        old(state).wf(),
        known_args(*old(state), args@, 2),
        window_in_range(*old(state), args@, 0),
        window_in_range(*old(state), args@, 1),
        prefix_end(old(state).memory, argv(*old(state), args@, 1), MAX_LEN, 1) <= u64::MAX,
        in_range(
            wadd(argv(*old(state), args@, 0), model_len(*old(state), argv(*old(state), args@, 0), MAX_LEN) as u64),
            prefix_end(old(state).memory, argv(*old(state), args@, 1), MAX_LEN, 1),
        ),
        in_range(
            argv(*old(state), args@, 1),
            prefix_end(old(state).memory, argv(*old(state), args@, 1), MAX_LEN, 1),
        ),
    ensures
        final(state).wf(),
        r == args@[0],
        prefix_copied(
            old(state).memory,
            final(state).memory,
            wadd(argv(*old(state), args@, 0), model_len(*old(state), argv(*old(state), args@, 0), MAX_LEN) as u64),
            argv(*old(state), args@, 1),
            MAX_LEN,
            1,
        ),
        final(state).memory.heap_next == old(state).memory.heap_next,
        final(state).memory.blocks@ == old(state).memory.blocks@,
        final(state).filesystem == old(state).filesystem,
        final(state).pid == old(state).pid,
        final(state).status == old(state).status,
        exists|len: Value|
            #[trigger] string_length(
                len,
                bounded_window(old(state).memory, argv(*old(state), args@, 0), MAX_LEN),
            ) && old(state).pinned_at(*final(state), seq![args@[0], args@[1], len]),
{
    let w = concretize_args(state, &args, 2);
    assert(args@.take(2) =~= seq![args@[0], args@[1]]);
    let ghost s1 = *state;
    let max = MAX_LEN;
    let length1 = concrete_strlen(state, w[0], max);
    let ghost len = choose|len: Value|
        #[trigger] string_length(len, old(state).memory.region(w[0], max as int)) && s1.pinned_at(
            *state,
            seq![len],
        );
    proof {
        crate::state::lemma_pinned_at_trans(*old(state), s1, *state, seq![args@[0], args@[1]], seq![len]);
        assert(seq![args@[0], args@[1]] + seq![len] =~= seq![args@[0], args@[1], len]);
        assert(bounded_window(old(state).memory, w[0], max) == old(state).memory.region(w[0], max as int));
        crate::memory::lemma_known_end(bounded_window(state.memory, w[1], max), |x: u64| 0u64);
    }
    copy_prefix(state, w[0].wrapping_add(length1), w[1], max, 1);
    args[0].duplicate()
}

/// Appends like `strcat`, each length taken among no more than `args[2]`
/// bytes; returns `args[0]`. Symbolic pointers, the bound and the length of
/// the string at `args[0]` are taken as they are in the model, and the path
/// is pinned to each.
pub fn strncat(state: &mut State, args: Vec<Value>) -> (r: Value)
    requires
        old(state).wf(),
        known_args(*old(state), args@, 3),
        in_range(argv(*old(state), args@, 0), argv(*old(state), args@, 2) as int),
        in_range(argv(*old(state), args@, 1), argv(*old(state), args@, 2) as int),
        prefix_end(old(state).memory, argv(*old(state), args@, 1), argv(*old(state), args@, 2), 1) <= u64::MAX,
        in_range(
            wadd(argv(*old(state), args@, 0), model_len(*old(state), argv(*old(state), args@, 0), argv(*old(state), args@, 2)) as u64),
            prefix_end(old(state).memory, argv(*old(state), args@, 1), argv(*old(state), args@, 2), 1),
        ),
        in_range(
            argv(*old(state), args@, 1),
            prefix_end(old(state).memory, argv(*old(state), args@, 1), argv(*old(state), args@, 2), 1),
        ),
    ensures
        final(state).wf(),
        r == args@[0],
        prefix_copied(
            old(state).memory,
            final(state).memory,
            wadd(argv(*old(state), args@, 0), model_len(*old(state), argv(*old(state), args@, 0), argv(*old(state), args@, 2)) as u64),
            argv(*old(state), args@, 1),
            argv(*old(state), args@, 2),
            1,
        ),
        final(state).memory.heap_next == old(state).memory.heap_next,
        final(state).memory.blocks@ == old(state).memory.blocks@,
        final(state).filesystem == old(state).filesystem,
        final(state).pid == old(state).pid,
        final(state).status == old(state).status,
        exists|len: Value|
            #[trigger] string_length(
                len,
                bounded_window(old(state).memory, argv(*old(state), args@, 0), argv(*old(state), args@, 2)),
            ) && old(state).pinned_at(*final(state), seq![args@[0], args@[1], args@[2], len]),
{
    let w = concretize_args(state, &args, 3);
    assert(args@.take(3) =~= seq![args@[0], args@[1], args@[2]]);
    let ghost s1 = *state;
    let max = w[2];
    let length1 = concrete_strlen(state, w[0], max);
    let ghost len = choose|len: Value|
        #[trigger] string_length(len, old(state).memory.region(w[0], max as int)) && s1.pinned_at(
            *state,
            seq![len],
        );
    proof {
        crate::state::lemma_pinned_at_trans(*old(state), s1, *state, seq![args@[0], args@[1], args@[2]], seq![len]);
        assert(seq![args@[0], args@[1], args@[2]] + seq![len] =~= seq![args@[0], args@[1], args@[2], len]);
        assert(bounded_window(old(state).memory, w[0], max) == old(state).memory.region(w[0], max as int));
        crate::memory::lemma_known_end(bounded_window(state.memory, w[1], max), |x: u64| 0u64);
    }
    copy_prefix(state, w[0].wrapping_add(length1), w[1], max, 1);
    args[0].duplicate()
}

/// A new heap block of `args[0]` bytes: its address, or 0 when the heap is
/// full. A symbolic size is taken as it is in the model, and the path is
/// pinned to it.
pub fn malloc(state: &mut State, args: Vec<Value>) -> (r: Value)
    requires
        old(state).wf(),
        known_args(*old(state), args@, 1),
    ensures
        final(state).wf(),
        r == Value::Concrete(old(state).memory.next_block(argv(*old(state), args@, 0))),
        old(state).memory.allocated(final(state).memory, argv(*old(state), args@, 0)),
        final(state).filesystem == old(state).filesystem,
        final(state).pid == old(state).pid,
        final(state).status == old(state).status,
        old(state).pinned_at(*final(state), seq![args@[0]]),
{
    let len = state.concretize(&args[0]);
    Value::Concrete(state.memory.allocate(len))
}

/// A new heap block of `args[0] * args[1]` bytes (wrapping): its address,
/// or 0 when the heap is full. A symbolic size is taken as it is in the
/// model, and the path is pinned to it.
pub fn calloc(state: &mut State, args: Vec<Value>) -> (r: Value)
    requires
        old(state).wf(),
        known_args(*old(state), args@, 2),
    ensures
        final(state).wf(),
        r == Value::Concrete(
            old(state).memory.next_block(
                crate::value::wmul(argv(*old(state), args@, 0), argv(*old(state), args@, 1)),
            ),
        ),
        old(state).memory.allocated(
            final(state).memory,
            crate::value::wmul(argv(*old(state), args@, 0), argv(*old(state), args@, 1)),
        ),
        final(state).filesystem == old(state).filesystem,
        final(state).pid == old(state).pid,
        final(state).status == old(state).status,
        old(state).pinned_at(
            *final(state),
            seq![crate::value::combine(BinOp::Mul, args@[0], args@[1])],
        ),
{
    let len = Value::binary(BinOp::Mul, args[0].duplicate(), args[1].duplicate());
    proof {
        assert(args@[0].below(state.symbols@.len()) && args@[1].below(state.symbols@.len()));
    }
    let n = state.concretize(&len);
    Value::Concrete(state.memory.allocate(n))
}

/// Releases the heap block at `args[0]`; returns 0. A symbolic pointer is
/// taken as it is in the model, and the path is pinned to it.
pub fn free(state: &mut State, args: Vec<Value>) -> (r: Value)
    requires
        old(state).wf(),
        known_args(*old(state), args@, 1),
    ensures
        final(state).wf(),
        r == Value::Concrete(0),
        final(state).memory.bytes@ == old(state).memory.bytes@,
        final(state).memory.heap_next == old(state).memory.heap_next,
        final(state).memory.blocks@ == old(state).memory.blocks@.remove(argv(*old(state), args@, 0)),
        final(state).filesystem == old(state).filesystem,
        final(state).pid == old(state).pid,
        final(state).status == old(state).status,
        old(state).pinned_at(*final(state), seq![args@[0]]),
{
    let addr = state.concretize(&args[0]);
    state.memory.free(addr);
    Value::Concrete(0)
}

/// The first (the last when `reverse`) occurrence of the byte `args[1]`
/// among `args[2]` bytes from `args[0]` on, or 0. A symbolic pointer or
/// length is taken as it is in the model, and the path is pinned to it.
pub fn memchr_help(state: &mut State, args: Vec<Value>, reverse: bool) -> (r: Value)
    requires
        old(state).wf(),
        args@.len() >= 3,
        args@[0].below(old(state).symbols@.len()),
        args@[2].below(old(state).symbols@.len()),
        in_range(argv(*old(state), args@, 0), argv(*old(state), args@, 2) as int),
    ensures
        final(state).wf(),
        forall|env: spec_fn(u64) -> u64| #[trigger]
            r.eval(env) == old(state).memory.search_spec(
                argv(*old(state), args@, 0),
                args@[1].eval(env),
                1,
                argv(*old(state), args@, 2),
                reverse,
                env,
            ),
        args@[1].is_concrete() && crate::memory::all_concrete(
            old(state).memory.region(argv(*old(state), args@, 0), argv(*old(state), args@, 2) as int),
        ) ==> r.is_concrete(),
        final(state).memory == old(state).memory,
        final(state).filesystem == old(state).filesystem,
        final(state).pid == old(state).pid,
        final(state).status == old(state).status,
        old(state).pinned_at(*final(state), seq![args@[0], args@[2]]),
{
    let addr = state.concretize(&args[0]);
    let ghost s1 = *state;
    let len = state.concretize(&args[2]);
    proof {
        crate::state::lemma_pinned_at_trans(*old(state), s1, *state, seq![args@[0]], seq![args@[2]]);
        assert(seq![args@[0]] + seq![args@[2]] =~= seq![args@[0], args@[2]]);
        lemma_same_model(*old(state), s1);
    }
    state.memory.search(addr, args[1].duplicate(), 1, len, reverse)
}

/// The first occurrence of the byte `args[1]` among `args[2]` bytes from
/// `args[0]` on, or 0 (as `memchr_help` forward).
pub fn memchr(state: &mut State, args: Vec<Value>) -> (r: Value)
    requires
        old(state).wf(),
        args@.len() >= 3,
        args@[0].below(old(state).symbols@.len()),
        args@[2].below(old(state).symbols@.len()),
        in_range(argv(*old(state), args@, 0), argv(*old(state), args@, 2) as int),
    ensures
        final(state).wf(),
        forall|env: spec_fn(u64) -> u64| #[trigger]
            r.eval(env) == old(state).memory.search_spec(
                argv(*old(state), args@, 0),
                args@[1].eval(env),
                1,
                argv(*old(state), args@, 2),
                false,
                env,
            ),
        args@[1].is_concrete() && crate::memory::all_concrete(
            old(state).memory.region(argv(*old(state), args@, 0), argv(*old(state), args@, 2) as int),
        ) ==> r.is_concrete(),
        final(state).memory == old(state).memory,
        final(state).filesystem == old(state).filesystem,
        final(state).pid == old(state).pid,
        final(state).status == old(state).status,
        old(state).pinned_at(*final(state), seq![args@[0], args@[2]]),
{
    memchr_help(state, args, false)
}

/// The last occurrence of the byte `args[1]` among `args[2]` bytes from
/// `args[0]` on, or 0 (as `memchr_help` backward).
pub fn memrchr(state: &mut State, args: Vec<Value>) -> (r: Value)
    requires
        old(state).wf(),
        args@.len() >= 3,
        args@[0].below(old(state).symbols@.len()),
        args@[2].below(old(state).symbols@.len()),
        in_range(argv(*old(state), args@, 0), argv(*old(state), args@, 2) as int),
    ensures
        final(state).wf(),
        forall|env: spec_fn(u64) -> u64| #[trigger]
            r.eval(env) == old(state).memory.search_spec(
                argv(*old(state), args@, 0),
                args@[1].eval(env),
                1,
                argv(*old(state), args@, 2),
                true,
                env,
            ),
        args@[1].is_concrete() && crate::memory::all_concrete(
            old(state).memory.region(argv(*old(state), args@, 0), argv(*old(state), args@, 2) as int),
        ) ==> r.is_concrete(),
        final(state).memory == old(state).memory,
        final(state).filesystem == old(state).filesystem,
        final(state).pid == old(state).pid,
        final(state).status == old(state).status,
        old(state).pinned_at(*final(state), seq![args@[0], args@[2]]),
{
    memchr_help(state, args, true)
}

/// Looks for the byte `args[1]` within the C string at `args[0]` (not its
/// terminator): first or, when `reverse`, last match, or 0. Where the
/// string's bytes are symbolic, its length stays an expression and only
/// the positions within it under each assignment count. A symbolic pointer
/// is taken as it is in the model, and the path is pinned to it.
pub fn strchr_help(state: &mut State, args: Vec<Value>, reverse: bool) -> (r: Value)
    requires
        old(state).wf(),
        args@.len() >= 2,
        known_args(*old(state), args@, 1),
        window_in_range(*old(state), args@, 0),
    ensures
        final(state).wf(),
        forall|env: spec_fn(u64) -> u64| #[trigger]
            r.eval(env) == old(state).memory.guarded_search_spec(
                argv(*old(state), args@, 0),
                args@[1].eval(env),
                1,
                str_end(*old(state), args@) as u64,
                zero_scan(window(old(state).memory, argv(*old(state), args@, 0)), env) as u64,
                reverse,
                env,
            ),
        str_known(old(state).memory, argv(*old(state), args@, 0), MAX_LEN) && args@[1].is_concrete()
            ==> r.is_concrete(),
        final(state).memory == old(state).memory,
        final(state).filesystem == old(state).filesystem,
        final(state).pid == old(state).pid,
        final(state).status == old(state).status,
        old(state).pinned_at(*final(state), seq![args@[0]]),
{
    let addr = state.concretize(&args[0]);
    let ghost w = window(state.memory, addr);
    let len = state.memory.strlen(addr, MAX_LEN);
    let bound = len.upper_bound();
    let ghost glen = len;
    proof {
        crate::memory::lemma_known_end(w, |x: u64| 0u64);
        assert forall|env: spec_fn(u64) -> u64| #[trigger] glen.eval(env) <= bound by {
            crate::memory::lemma_known_end(w, env);
        }
    }
    match len.as_concrete() {
        Some(n) => {
            proof {
                lemma_settled_len(w, |x: u64| 0u64);
                crate::memory::lemma_settled_end(w);
                assert(n == glen.eval(|x: u64| 0u64));
                assert(n == bound);
                lemma_string_bytes_concrete(state.memory, addr, MAX_LEN, n as int);
                assert forall|env: spec_fn(u64) -> u64| #[trigger] glen.eval(env) == n by {}
            }
            let r = state.memory.search(addr, args[1].duplicate(), 1, n, reverse);
            proof {
                assert forall|env: spec_fn(u64) -> u64| #[trigger]
                    r.eval(env) == state.memory.guarded_search_spec(
                        addr,
                        args@[1].eval(env),
                        1,
                        bound,
                        zero_scan(w, env) as u64,
                        reverse,
                        env,
                    ) by {
                    assert(glen.eval(env) == zero_scan(w, env));
                    assert(r.eval(env) == state.memory.search_spec(addr, args@[1].eval(env), 1, n, reverse, env));
                }
            }
            r
        },
        None => {
            let r = state.memory.search_guarded(addr, args[1].duplicate(), 1, &len, bound, reverse);
            proof {
                assert forall|env: spec_fn(u64) -> u64| #[trigger]
                    r.eval(env) == state.memory.guarded_search_spec(
                        addr,
                        args@[1].eval(env),
                        1,
                        bound,
                        zero_scan(w, env) as u64,
                        reverse,
                        env,
                    ) by {
                    assert(glen.eval(env) == zero_scan(w, env));
                }
            }
            r
        },
    }
}

/// The first occurrence of the byte `args[1]` in the C string at `args[0]`,
/// or 0 (as `strchr_help` forward).
pub fn strchr(state: &mut State, args: Vec<Value>) -> (r: Value)
    requires
        old(state).wf(),
        args@.len() >= 2,
        known_args(*old(state), args@, 1),
        window_in_range(*old(state), args@, 0),
    ensures
        final(state).wf(),
        forall|env: spec_fn(u64) -> u64| #[trigger]
            r.eval(env) == old(state).memory.guarded_search_spec(
                argv(*old(state), args@, 0),
                args@[1].eval(env),
                1,
                str_end(*old(state), args@) as u64,
                zero_scan(window(old(state).memory, argv(*old(state), args@, 0)), env) as u64,
                false,
                env,
            ),
        str_known(old(state).memory, argv(*old(state), args@, 0), MAX_LEN) && args@[1].is_concrete()
            ==> r.is_concrete(),
        final(state).memory == old(state).memory,
        final(state).filesystem == old(state).filesystem,
        final(state).pid == old(state).pid,
        final(state).status == old(state).status,
        old(state).pinned_at(*final(state), seq![args@[0]]),
{
    strchr_help(state, args, false)
}

/// The last occurrence of the byte `args[1]` in the C string at `args[0]`,
/// or 0 (as `strchr_help` backward).
pub fn strrchr(state: &mut State, args: Vec<Value>) -> (r: Value)
    requires
        old(state).wf(),
        args@.len() >= 2,
        known_args(*old(state), args@, 1),
        window_in_range(*old(state), args@, 0),
    ensures
        final(state).wf(),
        forall|env: spec_fn(u64) -> u64| #[trigger]
            r.eval(env) == old(state).memory.guarded_search_spec(
                argv(*old(state), args@, 0),
                args@[1].eval(env),
                1,
                str_end(*old(state), args@) as u64,
                zero_scan(window(old(state).memory, argv(*old(state), args@, 0)), env) as u64,
                true,
                env,
            ),
        str_known(old(state).memory, argv(*old(state), args@, 0), MAX_LEN) && args@[1].is_concrete()
            ==> r.is_concrete(),
        final(state).memory == old(state).memory,
        final(state).filesystem == old(state).filesystem,
        final(state).pid == old(state).pid,
        final(state).status == old(state).status,
        old(state).pinned_at(*final(state), seq![args@[0]]),
{
    strchr_help(state, args, true)
}

/// The result of comparing `n` bytes at `a` with `n` bytes at `b`.
pub open spec fn region_diff(m: Memory, a: u64, b: u64, n: int, env: spec_fn(u64) -> u64) -> u64 {
    crate::memory::diff_scan(m.region(a, n), m.region(b, n), env)
}

/// Compares `args[2]` bytes at `args[0]` and `args[1]`: the difference of
/// the first pair of bytes that differs, or 0. Symbolic pointers are taken
/// as they are in the model, and the path is pinned to them; a symbolic
/// count is handled as `take_count` says, and where it is guarded the result
/// is under every assignment the comparison of as many bytes as it takes.
pub fn memcmp(state: &mut State, args: Vec<Value>) -> (r: Value)
    requires
        old(state).wf(),
        known_args(*old(state), args@, 3),
        copy_fits(*old(state), args@),
    ensures
        final(state).wf(),
        forall|env: spec_fn(u64) -> u64| #[trigger]
            r.eval(env) == region_diff(
                old(state).memory,
                argv(*old(state), args@, 0),
                argv(*old(state), args@, 1),
                count_len(*old(state), args@[2], env),
                env,
            ),
        !guarded_count(args@[2]) && crate::memory::all_concrete(
            old(state).memory.region(argv(*old(state), args@, 0), span_len(*old(state), args@[2])),
        ) && crate::memory::all_concrete(
            old(state).memory.region(argv(*old(state), args@, 1), span_len(*old(state), args@[2])),
        ) ==> r.is_concrete(),
        final(state).memory == old(state).memory,
        final(state).filesystem == old(state).filesystem,
        final(state).pid == old(state).pid,
        final(state).status == old(state).status,
        old(state).pinned_at(*final(state), seq![args@[0], args@[1]] + count_pins(*old(state), args@[2])),
{
    let w = concretize_args(state, &args, 2);
    let ghost s1 = *state;
    let a = w[0];
    let b = w[1];
    let (n, guarded, len) = take_count(state, &args[2]);
    proof {
        lemma_count_pins_model(s1, *old(state), args@[2]);
        crate::state::lemma_pinned_at_trans(*old(state), s1, *state, args@.take(2), count_pins(*old(state), args@[2]));
        assert(args@.take(2) =~= seq![args@[0], args@[1]]);
        lemma_same_model(*old(state), s1);
    }
    if guarded {
        state.memory.compare_guarded(a, b, &len, n)
    } else {
        state.memory.compare(a, b, n)
    }
}

/// Under `env`, the number of bytes a count stands for, as an integer.
pub open spec fn count_len(s: State, v: Value, env: spec_fn(u64) -> u64) -> int {
    count_at(s, v, env) as int
}

/// The number of bytes a count stands for at most, as an integer.
pub open spec fn span_len(s: State, v: Value) -> int {
    span(s, v) as int
}

/// The smaller of two integers.
pub open spec fn min(a: int, b: int) -> int {
    if a < b {
        a
    } else {
        b
    }
}

/// Two states with the same model give the same values, and with the same
/// memory the same model lengths.
pub proof fn lemma_same_model(s1: State, s2: State)
    requires
        s2.model@ == s1.model@,
        s2.memory == s1.memory,
    ensures
        s2.model_env() == s1.model_env(),
        forall|v: Value| #[trigger] s2.val(v) == s1.val(v),
        forall|a: u64, max: u64| #[trigger] model_len(s2, a, max) == model_len(s1, a, max),
{
    assert(s2.model_env() == s1.model_env());
}

/// `n` bytes from arguments 0 and 1 (in the model) stay below 2^64.
pub open spec fn both_in_range_model(s: State, args: Seq<Value>, n: int) -> bool {
    in_range(argv(s, args, 0), n) && in_range(argv(s, args, 1), n)
}

/// The windows of arguments 0 and 1 stay below 2^64.
pub open spec fn windows_in_range(s: State, args: Seq<Value>) -> bool {
    window_in_range(s, args, 0) && window_in_range(s, args, 1)
}

/// The `args[2]` bytes from arguments 0 and 1 stay below 2^64.
pub open spec fn bounded_windows(s: State, args: Seq<Value>) -> bool {
    in_range(argv(s, args, 0), argv(s, args, 2) as int) && in_range(
        argv(s, args, 1),
        argv(s, args, 2) as int,
    )
}

/// The `MAX_LEN` bytes from `a` on.
pub open spec fn window(m: Memory, a: u64) -> Seq<Value> {
    m.region(a, MAX_LEN as int)
}

/// The length of the C string in `s` under `env`, as an integer.
pub open spec fn scan(s: Seq<Value>, env: spec_fn(u64) -> u64) -> int {
    zero_scan(s, env) as int
}

/// Under `env`, the length of the C string at argument `i`.
pub open spec fn len_at(s: State, args: Seq<Value>, i: int, env: spec_fn(u64) -> u64) -> int {
    zero_scan(s.memory.region(argv(s, args, i), MAX_LEN as int), env) as int
}

/// Under `env`, what C's `strcmp` gives for the strings at arguments 0 and
/// 1: the comparison of as many bytes as the shorter length plus one.
pub open spec fn strcmp_diff(s: State, args: Seq<Value>, env: spec_fn(u64) -> u64) -> u64 {
    region_diff(
        s.memory,
        argv(s, args, 0),
        argv(s, args, 1),
        min(len_at(s, args, 0, env), len_at(s, args, 1, env)) + 1,
        env,
    )
}

/// The bytes that `strcmp` may look at from each argument: the shorter of
/// the strings' ends (their first concrete zeros) plus one.
pub open spec fn compare_end(s: State, args: Seq<Value>) -> int {
    min(
        crate::memory::known_end(s.memory.region(argv(s, args, 0), MAX_LEN as int)) as int,
        crate::memory::known_end(s.memory.region(argv(s, args, 1), MAX_LEN as int)) as int,
    ) + 1
}

/// The strings at arguments 0 and 1 are made of concrete bytes and end
/// within `MAX_LEN` bytes.
pub open spec fn fixed_strings(s: State, args: Seq<Value>) -> bool {
    &&& str_known(s.memory, argv(s, args, 0), MAX_LEN)
    &&& str_known(s.memory, argv(s, args, 1), MAX_LEN)
    &&& str_len(s.memory, argv(s, args, 0), MAX_LEN) < MAX_LEN
    &&& str_len(s.memory, argv(s, args, 1), MAX_LEN) < MAX_LEN
}

/// Compares the C strings at `args[0]` and `args[1]` over the shorter
/// length plus one byte. Where the strings' bytes are symbolic, the result is
/// an expression that under every assignment is the comparison there. A
/// symbolic pointer is taken as it is in the model, and the path is pinned
/// to it.
pub fn strcmp(state: &mut State, args: Vec<Value>) -> (r: Value)
    requires
        old(state).wf(),
        known_args(*old(state), args@, 2),
        windows_in_range(*old(state), args@),
        both_in_range_model(*old(state), args@, compare_end(*old(state), args@)),
    ensures
        final(state).wf(),
        forall|env: spec_fn(u64) -> u64| #[trigger] r.eval(env) == strcmp_diff(*old(state), args@, env),
        fixed_strings(*old(state), args@) ==> r.is_concrete(),
        final(state).memory == old(state).memory,
        final(state).filesystem == old(state).filesystem,
        final(state).pid == old(state).pid,
        final(state).status == old(state).status,
        old(state).pinned_at(*final(state), seq![args@[0], args@[1]]),
        args@[0].is_concrete() && args@[1].is_concrete() ==> final(state).constraints@ == old(
            state,
        ).constraints@,
{
    let a = state.concretize(&args[0]);
    let ghost s1 = *state;
    let b = state.concretize(&args[1]);
    proof {
        crate::state::lemma_pinned_at_trans(*old(state), s1, *state, seq![args@[0]], seq![args@[1]]);
        assert(seq![args@[0]] + seq![args@[1]] =~= seq![args@[0], args@[1]]);
        lemma_same_model(*old(state), s1);
    }
    let l1 = state.memory.strlen(a, MAX_LEN);
    let l2 = state.memory.strlen(b, MAX_LEN);
    let b1 = l1.upper_bound();
    let b2 = l2.upper_bound();
    let ghost ra = window(state.memory, a);
    let ghost rb = window(state.memory, b);
    let ghost gl1 = l1;
    let ghost gl2 = l2;
    proof {
        assert forall|env: spec_fn(u64) -> u64| #[trigger] gl1.eval(env) <= b1 && gl2.eval(env) <= b2 by {
            crate::memory::lemma_known_end(ra, env);
            crate::memory::lemma_known_end(rb, env);
        }
        crate::memory::lemma_known_end(ra, |x: u64| 0u64);
        crate::memory::lemma_known_end(rb, |x: u64| 0u64);
    }
    let shorter = Value::ite(
        Value::binary(BinOp::Ult, l1.duplicate(), l2.duplicate()),
        l1,
        l2,
    );
    let length = Value::binary(BinOp::Add, shorter, Value::Concrete(1));
    let bound: u64 = if b1 < b2 {
        b1 + 1
    } else {
        b2 + 1
    };
    proof {
        assert forall|env: spec_fn(u64) -> u64| #[trigger]
            length.eval(env) == min(
                scan(ra, env),
                scan(rb, env),
            ) + 1 && length.eval(env) <= bound by {
            crate::memory::lemma_known_end(ra, env);
            crate::memory::lemma_known_end(rb, env);
            assert(gl1.eval(env) == zero_scan(ra, env));
            assert(gl2.eval(env) == zero_scan(rb, env));
            assert(shorter.eval(env) == min(scan(ra, env), scan(rb, env)));
        }
    }
    match length.as_concrete() {
        Some(n) => {
            proof {
                assert(n == length.eval(|x: u64| 0u64));
                assert forall|env: spec_fn(u64) -> u64| #[trigger] length.eval(env) == n by {}
                if fixed_strings(*old(state), args@) {
                    lemma_settled_len(ra, |x: u64| 0u64);
                    lemma_settled_len(rb, |x: u64| 0u64);
                    lemma_compared_bytes_concrete(state.memory, a, b, MAX_LEN, n);
                }
            }
            let r = state.memory.compare(a, b, n);
            proof {
                assert forall|env: spec_fn(u64) -> u64| #[trigger]
                    r.eval(env) == strcmp_diff(*old(state), args@, env) by {
                    assert(length.eval(env) == n);
                    assert(len_at(*old(state), args@, 0, env) == scan(ra, env));
                    assert(len_at(*old(state), args@, 1, env) == scan(rb, env));
                }
            }
            r
        },
        None => {
            proof {
                if fixed_strings(*old(state), args@) {
                    assert(gl1.is_concrete() && gl2.is_concrete());
                }
            }
            let r = state.memory.compare_guarded(a, b, &length, bound);
            proof {
                assert forall|env: spec_fn(u64) -> u64| #[trigger]
                    r.eval(env) == strcmp_diff(*old(state), args@, env) by {
                    assert(length.eval(env) == min(scan(ra, env), scan(rb, env)) + 1);
                    assert(len_at(*old(state), args@, 0, env) == scan(ra, env));
                    assert(len_at(*old(state), args@, 1, env) == scan(rb, env));
                }
            }
            r
        },
    }
}

/// The `max` bytes from `a` on.
pub open spec fn bounded_window(m: Memory, a: u64, max: u64) -> Seq<Value> {
    m.region(a, max as int)
}

/// `x + 1` as a word, wrapping.
pub open spec fn wnext(x: int) -> u64 {
    wadd(x as u64, 1)
}

/// Under `env`, the length of the C string at argument `i` among no more
/// than `args[2]` bytes (in the model).
pub open spec fn bounded_len_at(s: State, args: Seq<Value>, i: int, env: spec_fn(u64) -> u64) -> int {
    scan(bounded_window(s.memory, argv(s, args, i), argv(s, args, 2)), env)
}

/// Under `env`, what C's `strncmp` gives for the strings at arguments 0 and
/// 1 and the bound at argument 2: the comparison of as many bytes as the
/// shorter bounded length plus one (wrapping).
pub open spec fn bounded_diff(s: State, args: Seq<Value>, env: spec_fn(u64) -> u64) -> u64 {
    region_diff(
        s.memory,
        argv(s, args, 0),
        argv(s, args, 1),
        wnext(min(bounded_len_at(s, args, 0, env), bounded_len_at(s, args, 1, env))) as int,
        env,
    )
}

/// The bytes that `strncmp` may look at from each argument: the shorter of
/// the strings' bounded ends plus one (no more than the largest word).
pub open spec fn bounded_end(s: State, args: Seq<Value>) -> int {
    let m = min(
        crate::memory::known_end(bounded_window(s.memory, argv(s, args, 0), argv(s, args, 2))) as int,
        crate::memory::known_end(bounded_window(s.memory, argv(s, args, 1), argv(s, args, 2))) as int,
    );
    if m < u64::MAX {
        m + 1
    } else {
        u64::MAX as int
    }
}

/// The strings at arguments 0 and 1 are made of concrete bytes and end
/// within `args[2]` bytes (in the model).
pub open spec fn fixed_bounded_strings(s: State, args: Seq<Value>) -> bool {
    &&& str_known(s.memory, argv(s, args, 0), argv(s, args, 2))
    &&& str_known(s.memory, argv(s, args, 1), argv(s, args, 2))
    &&& str_len(s.memory, argv(s, args, 0), argv(s, args, 2)) < argv(s, args, 2)
    &&& str_len(s.memory, argv(s, args, 1), argv(s, args, 2)) < argv(s, args, 2)
}

/// Compares the C strings at `args[0]` and `args[1]`, each length taken
/// among no more than `args[2]` bytes, over the shorter length plus one
/// byte (wrapping). Where the strings' bytes are symbolic, the result is an
/// expression that under every assignment is the comparison there. A
/// symbolic pointer or bound is taken as it is in the model, and the path is
/// pinned to it.
pub fn strncmp(state: &mut State, args: Vec<Value>) -> (r: Value)
    requires
        old(state).wf(),
        known_args(*old(state), args@, 3),
        bounded_windows(*old(state), args@),
        both_in_range_model(*old(state), args@, bounded_end(*old(state), args@)),
    ensures
        final(state).wf(),
        forall|env: spec_fn(u64) -> u64| #[trigger] r.eval(env) == bounded_diff(*old(state), args@, env),
        fixed_bounded_strings(*old(state), args@) ==> r.is_concrete(),
        final(state).memory == old(state).memory,
        final(state).filesystem == old(state).filesystem,
        final(state).pid == old(state).pid,
        final(state).status == old(state).status,
        old(state).pinned_at(*final(state), seq![args@[0], args@[1], args@[2]]),
        args@[0].is_concrete() && args@[1].is_concrete() && args@[2].is_concrete()
            ==> final(state).constraints@ == old(state).constraints@,
{
    let a = state.concretize(&args[0]);
    let ghost s1 = *state;
    let b = state.concretize(&args[1]);
    let ghost s2 = *state;
    let max = state.concretize(&args[2]);
    proof {
        crate::state::lemma_pinned_trans(*old(state), s1, s2);
        crate::state::lemma_pinned_at_trans(*old(state), s1, s2, seq![args@[0]], seq![args@[1]]);
        crate::state::lemma_pinned_at_trans(*old(state), s2, *state, seq![args@[0]] + seq![args@[1]], seq![args@[2]]);
        assert(seq![args@[0]] + seq![args@[1]] + seq![args@[2]] =~= seq![args@[0], args@[1], args@[2]]);
        lemma_same_model(*old(state), s1);
        lemma_same_model(*old(state), s2);
    }
    let l1 = state.memory.strlen(a, max);
    let l2 = state.memory.strlen(b, max);
    let b1 = l1.upper_bound();
    let b2 = l2.upper_bound();
    let ghost ra = bounded_window(state.memory, a, max);
    let ghost rb = bounded_window(state.memory, b, max);
    let ghost gl1 = l1;
    let ghost gl2 = l2;
    proof {
        assert forall|env: spec_fn(u64) -> u64| #[trigger] gl1.eval(env) <= b1 && gl2.eval(env) <= b2 by {
            crate::memory::lemma_known_end(ra, env);
            crate::memory::lemma_known_end(rb, env);
        }
    }
    let shorter = Value::ite(
        Value::binary(BinOp::Ult, l1.duplicate(), l2.duplicate()),
        l1,
        l2,
    );
    let length = Value::binary(BinOp::Add, shorter, Value::Concrete(1));
    let m: u64 = if b1 < b2 {
        b1
    } else {
        b2
    };
    let bound: u64 = if m < u64::MAX {
        m + 1
    } else {
        u64::MAX
    };
    proof {
        assert forall|env: spec_fn(u64) -> u64| #[trigger]
            length.eval(env) == wnext(min(scan(ra, env), scan(rb, env))) && length.eval(env)
                <= bound by {
            crate::memory::lemma_known_end(ra, env);
            crate::memory::lemma_known_end(rb, env);
            assert(gl1.eval(env) == zero_scan(ra, env));
            assert(gl2.eval(env) == zero_scan(rb, env));
            assert(shorter.eval(env) == min(scan(ra, env), scan(rb, env)));
        }
    }
    match length.as_concrete() {
        Some(n) => {
            proof {
                assert(n == length.eval(|x: u64| 0u64));
                assert forall|env: spec_fn(u64) -> u64| #[trigger] length.eval(env) == n by {}
                if fixed_bounded_strings(*old(state), args@) {
                    lemma_settled_len(ra, |x: u64| 0u64);
                    lemma_settled_len(rb, |x: u64| 0u64);
                    lemma_compared_bytes_concrete(state.memory, a, b, max, n);
                }
            }
            let r = state.memory.compare(a, b, n);
            proof {
                assert forall|env: spec_fn(u64) -> u64| #[trigger]
                    r.eval(env) == bounded_diff(*old(state), args@, env) by {
                    assert(length.eval(env) == n);
                    assert(bounded_len_at(*old(state), args@, 0, env) == scan(ra, env));
                    assert(bounded_len_at(*old(state), args@, 1, env) == scan(rb, env));
                }
            }
            r
        },
        None => {
            proof {
                if fixed_bounded_strings(*old(state), args@) {
                    assert(gl1.is_concrete() && gl2.is_concrete());
                }
            }
            let r = state.memory.compare_guarded(a, b, &length, bound);
            proof {
                assert forall|env: spec_fn(u64) -> u64| #[trigger]
                    r.eval(env) == bounded_diff(*old(state), args@, env) by {
                    assert(length.eval(env) == wnext(min(scan(ra, env), scan(rb, env))));
                    assert(bounded_len_at(*old(state), args@, 0, env) == scan(ra, env));
                    assert(bounded_len_at(*old(state), args@, 1, env) == scan(rb, env));
                }
            }
            r
        },
    }
}

/// The length of the needle `strstr` reads: the leading bytes of the C
/// string at argument 1 that are concrete and non-zero, so the string is at
/// least that long under every assignment.
pub open spec fn needle_len(s: State, args: Seq<Value>) -> int {
    crate::memory::sure_len(window(s.memory, argv(s, args, 1))) as int
}

/// Looks for the `args[3]` bytes at `args[2]` among the positions from
/// `args[0]` on where they end within `args[1]` bytes: the address of the
/// first occurrence, or 0. Symbolic pointers and the needle length are taken
/// as they are in the model, and the path is pinned to them; the haystack
/// length is handled as `take_count` says.
pub fn memmem(state: &mut State, args: Vec<Value>) -> (r: Value)
    requires
        old(state).wf(),
        known_args(*old(state), args@, 4),
        1 <= argv(*old(state), args@, 3),
        in_range(argv(*old(state), args@, 2), argv(*old(state), args@, 3) as int),
        in_range(argv(*old(state), args@, 0), span(*old(state), args@[1]) as int),
    ensures
        final(state).wf(),
        forall|env: spec_fn(u64) -> u64| #[trigger]
            r.eval(env) == crate::memory::found_address(
                argv(*old(state), args@, 0),
                crate::memory::find_seq(
                    old(state).memory.region(argv(*old(state), args@, 0), span(*old(state), args@[1]) as int),
                    old(state).memory.region(argv(*old(state), args@, 2), argv(*old(state), args@, 3) as int),
                    0,
                    crate::memory::positions(count_at(*old(state), args@[1], env), argv(*old(state), args@, 3)) as int,
                    env,
                ),
            ),
        !guarded_count(args@[1]) && crate::memory::all_concrete(
            old(state).memory.region(argv(*old(state), args@, 0), span(*old(state), args@[1]) as int),
        ) && crate::memory::all_concrete(
            old(state).memory.region(argv(*old(state), args@, 2), argv(*old(state), args@, 3) as int),
        ) ==> r.is_concrete(),
        final(state).memory == old(state).memory,
        final(state).filesystem == old(state).filesystem,
        final(state).pid == old(state).pid,
        final(state).status == old(state).status,
        old(state).pinned_at(*final(state), seq![args@[0], args@[2], args@[3]] + count_pins(*old(state), args@[1])),
{
    let hay = state.concretize(&args[0]);
    let ghost s1 = *state;
    let ndl = state.concretize(&args[2]);
    let ghost s2 = *state;
    let nlen = state.concretize(&args[3]);
    let ghost s3 = *state;
    let (hlen, guarded, len) = take_count(state, &args[1]);
    proof {
        crate::state::lemma_pinned_at_trans(*old(state), s1, s2, seq![args@[0]], seq![args@[2]]);
        crate::state::lemma_pinned_at_trans(*old(state), s2, s3, seq![args@[0]] + seq![args@[2]], seq![args@[3]]);
        lemma_count_pins_model(s3, *old(state), args@[1]);
        crate::state::lemma_pinned_at_trans(*old(state), s3, *state, seq![args@[0]] + seq![args@[2]] + seq![args@[3]], count_pins(*old(state), args@[1]));
        assert(seq![args@[0]] + seq![args@[2]] + seq![args@[3]] =~= seq![args@[0], args@[2], args@[3]]);
        lemma_same_model(*old(state), s1);
        lemma_same_model(*old(state), s2);
        lemma_same_model(*old(state), s3);
    }
    let needle = state.memory.read_bytes(ndl, nlen);
    state.memory.search_bytes(hay, &needle, &len, hlen)
}

/// Looks, within the C string at `args[0]`, for the bytes at `args[0]` as
/// many as the C string at `args[1]` is long (under every assignment at
/// least): the address of the first occurrence, or 0. Where the haystack's
/// bytes are symbolic, its length stays an expression and the result is
/// one too. Symbolic pointers are taken as they are in the model, and the
/// path is pinned to them.
pub fn strstr(state: &mut State, args: Vec<Value>) -> (r: Value)
    requires
        old(state).wf(),
        known_args(*old(state), args@, 2),
        windows_in_range(*old(state), args@),
        1 <= needle_len(*old(state), args@),
    ensures
        final(state).wf(),
        forall|env: spec_fn(u64) -> u64| #[trigger]
            r.eval(env) == crate::memory::found_address(
                argv(*old(state), args@, 0),
                crate::memory::find_seq(
                    old(state).memory.region(argv(*old(state), args@, 0), str_end(*old(state), args@)),
                    old(state).memory.region(argv(*old(state), args@, 0), needle_len(*old(state), args@)),
                    0,
                    crate::memory::positions(
                        zero_scan(window(old(state).memory, argv(*old(state), args@, 0)), env) as u64,
                        needle_len(*old(state), args@) as u64,
                    ) as int,
                    env,
                ),
            ),
        str_known(old(state).memory, argv(*old(state), args@, 0), MAX_LEN) && crate::memory::all_concrete(
            old(state).memory.region(argv(*old(state), args@, 0), str_end(*old(state), args@)),
        ) && crate::memory::all_concrete(
            old(state).memory.region(argv(*old(state), args@, 0), needle_len(*old(state), args@)),
        ) ==> r.is_concrete(),
        final(state).memory == old(state).memory,
        final(state).filesystem == old(state).filesystem,
        final(state).pid == old(state).pid,
        final(state).status == old(state).status,
        old(state).pinned_at(*final(state), seq![args@[0], args@[1]]),
{
    let hay = state.concretize(&args[0]);
    let ghost s1 = *state;
    let ndl = state.concretize(&args[1]);
    proof {
        crate::state::lemma_pinned_at_trans(*old(state), s1, *state, seq![args@[0]], seq![args@[1]]);
        assert(seq![args@[0]] + seq![args@[1]] =~= seq![args@[0], args@[1]]);
        lemma_same_model(*old(state), s1);
    }
    let dlen = state.memory.strlen(hay, MAX_LEN);
    let slen = state.memory.strlen(ndl, MAX_LEN);
    let n = slen.lower_bound();
    let bound = dlen.upper_bound();
    proof {
        crate::memory::lemma_sure_len(window(state.memory, ndl), |x: u64| 0u64);
        assert forall|env: spec_fn(u64) -> u64| #[trigger] dlen.eval(env) <= bound by {
            crate::memory::lemma_known_end(window(state.memory, hay), env);
        }
        crate::memory::lemma_known_end(window(state.memory, hay), |x: u64| 0u64);
    }
    let needle = state.memory.read_bytes(hay, n);
    state.memory.search_bytes(hay, &needle, &dlen, bound)
}

/// The byte `c` is a lower-case letter.
pub open spec fn is_lower(c: u64) -> bool {
    0x61 <= c < 0x7b
}

/// The byte `c` is an upper-case letter.
pub open spec fn is_upper(c: u64) -> bool {
    0x41 <= c < 0x5b
}

/// The byte `c` is a decimal digit.
pub open spec fn is_digit(c: u64) -> bool {
    0x30 <= c < 0x3a
}

/// The byte `c` is a space or a tab.
pub open spec fn is_blank(c: u64) -> bool {
    c == 0x20 || c == 0x09
}

/// The byte `c` is a control character.
pub open spec fn is_cntrl(c: u64) -> bool {
    c <= 0x1f || c == 0x7f
}

/// The low byte of argument 0 under `env`.
pub open spec fn char_arg(args: Seq<Value>, env: spec_fn(u64) -> u64) -> u64 {
    args[0].eval(env) & 0xff
}

/// Builds `lo <= c < hi` over the low byte `c` of `v`, as 1 or 0.
fn byte_between(v: &Value, lo: u64, hi: u64) -> (r: Value)
    ensures
        forall|env: spec_fn(u64) -> u64| #[trigger]
            r.eval(env) == flag(lo <= (v.eval(env) & 0xff) < hi),
        r.is_concrete() <==> v.is_concrete(),
{
    let c = Value::binary(BinOp::And, v.duplicate(), Value::Concrete(0xff));
    let below = Value::binary(BinOp::Ult, c.duplicate(), Value::Concrete(hi));
    let under = Value::binary(BinOp::Ult, c, Value::Concrete(lo));
    let r = Value::binary(BinOp::And, below, Value::complement(under));
    proof {
        assert forall|env: spec_fn(u64) -> u64| #[trigger]
            r.eval(env) == flag(lo <= (v.eval(env) & 0xff) < hi) by {
            let x = v.eval(env) & 0xff;
            lemma_flags(x < hi, x < lo);
        }
    }
    r
}

/// 1 when the low byte of `args[0]` is a lower-case letter, else 0.
pub fn islower(_state: &mut State, args: Vec<Value>) -> (r: Value)
    requires
        args@.len() >= 1,
    ensures
        forall|env: spec_fn(u64) -> u64| #[trigger]
            r.eval(env) == flag(is_lower(char_arg(args@, env))),
        r.is_concrete() <==> args@[0].is_concrete(),
        *final(_state) == *old(_state),
{
    byte_between(&args[0], 0x61, 0x7b)
}

/// 1 when the low byte of `args[0]` is an upper-case letter, else 0.
pub fn isupper(_state: &mut State, args: Vec<Value>) -> (r: Value)
    requires
        args@.len() >= 1,
    ensures
        forall|env: spec_fn(u64) -> u64| #[trigger]
            r.eval(env) == flag(is_upper(char_arg(args@, env))),
        r.is_concrete() <==> args@[0].is_concrete(),
        *final(_state) == *old(_state),
{
    byte_between(&args[0], 0x41, 0x5b)
}

/// 1 when the low byte of `args[0]` is a letter, else 0.
pub fn isalpha(state: &mut State, args: Vec<Value>) -> (r: Value)
    requires
        args@.len() >= 1,
    ensures
        forall|env: spec_fn(u64) -> u64| #[trigger]
            r.eval(env) == flag(
                is_upper(char_arg(args@, env)) || is_lower(char_arg(args@, env)),
            ),
        r.is_concrete() <==> args@[0].is_concrete(),
        *final(state) == *old(state),
{
    let mut uargs: Vec<Value> = Vec::new();
    uargs.push(args[0].duplicate());
    let up = isupper(state, uargs);
    let lo = islower(state, args);
    let r = Value::binary(BinOp::Or, up, lo);
    proof {
        assert forall|env: spec_fn(u64) -> u64| #[trigger]
            r.eval(env) == flag(
                is_upper(char_arg(args@, env)) || is_lower(char_arg(args@, env)),
            ) by {
            lemma_flags(is_upper(char_arg(args@, env)), is_lower(char_arg(args@, env)));
        }
    }
    r
}

/// 1 when the low byte of `args[0]` is a decimal digit, else 0.
pub fn isdigit(_state: &mut State, args: Vec<Value>) -> (r: Value)
    requires
        args@.len() >= 1,
    ensures
        forall|env: spec_fn(u64) -> u64| #[trigger]
            r.eval(env) == flag(is_digit(char_arg(args@, env))),
        r.is_concrete() <==> args@[0].is_concrete(),
        *final(_state) == *old(_state),
{
    byte_between(&args[0], 0x30, 0x3a)
}

/// 1 when the low byte of `args[0]` is a letter or a digit, else 0.
pub fn isalnum(state: &mut State, args: Vec<Value>) -> (r: Value)
    requires
        args@.len() >= 1,
    ensures
        forall|env: spec_fn(u64) -> u64| #[trigger]
            r.eval(env) == flag(
                is_upper(char_arg(args@, env)) || is_lower(char_arg(args@, env)) || is_digit(
                    char_arg(args@, env),
                ),
            ),
        r.is_concrete() <==> args@[0].is_concrete(),
        *final(state) == *old(state),
{
    let mut aargs: Vec<Value> = Vec::new();
    aargs.push(args[0].duplicate());
    let alpha = isalpha(state, aargs);
    let digit = isdigit(state, args);
    let r = Value::binary(BinOp::Or, alpha, digit);
    proof {
        assert forall|env: spec_fn(u64) -> u64| #[trigger]
            r.eval(env) == flag(
                is_upper(char_arg(args@, env)) || is_lower(char_arg(args@, env)) || is_digit(
                    char_arg(args@, env),
                ),
            ) by {
            lemma_flags(
                is_upper(char_arg(args@, env)) || is_lower(char_arg(args@, env)),
                is_digit(char_arg(args@, env)),
            );
        }
    }
    r
}

/// 1 when the low byte of `args[0]` is a space or a tab, else 0.
pub fn isblank(_state: &mut State, args: Vec<Value>) -> (r: Value)
    requires
        args@.len() >= 1,
    ensures
        forall|env: spec_fn(u64) -> u64| #[trigger]
            r.eval(env) == flag(is_blank(char_arg(args@, env))),
        r.is_concrete() <==> args@[0].is_concrete(),
        *final(_state) == *old(_state),
{
    let c = Value::binary(BinOp::And, args[0].duplicate(), Value::Concrete(0xff));
    let space = Value::binary(BinOp::Eq, c.duplicate(), Value::Concrete(0x20));
    let tab = Value::binary(BinOp::Eq, c, Value::Concrete(0x09));
    let r = Value::binary(BinOp::Or, space, tab);
    proof {
        assert forall|env: spec_fn(u64) -> u64| #[trigger]
            r.eval(env) == flag(is_blank(char_arg(args@, env))) by {
            let x = char_arg(args@, env);
            lemma_flags(x == 0x20, x == 0x09);
        }
    }
    r
}

/// 1 when the low byte of `args[0]` is a control character, else 0.
pub fn iscntrl(_state: &mut State, args: Vec<Value>) -> (r: Value)
    requires
        args@.len() >= 1,
    ensures
        forall|env: spec_fn(u64) -> u64| #[trigger]
            r.eval(env) == flag(is_cntrl(char_arg(args@, env))),
        r.is_concrete() <==> args@[0].is_concrete(),
        *final(_state) == *old(_state),
{
    let c = Value::binary(BinOp::And, args[0].duplicate(), Value::Concrete(0xff));
    let from_zero = Value::binary(BinOp::Uge, c.duplicate(), Value::Concrete(0));
    let to_us = Value::binary(BinOp::Ule, c.duplicate(), Value::Concrete(0x1f));
    let low = Value::binary(BinOp::And, from_zero, to_us);
    let del = Value::binary(BinOp::Eq, c, Value::Concrete(0x7f));
    let r = Value::binary(BinOp::Or, low, del);
    proof {
        assert forall|env: spec_fn(u64) -> u64| #[trigger]
            r.eval(env) == flag(is_cntrl(char_arg(args@, env))) by {
            let x = char_arg(args@, env);
            lemma_flags(x <= 0x1f, x == 0x7f);
        }
    }
    r
}

/// The upper-case form of `c`: `c - 0x20` (wrapping) when its low byte is
/// a lower-case letter, else `c`.
pub open spec fn to_upper(c: u64) -> u64 {
    if is_lower(c & 0xff) {
        crate::value::wsub(c, 0x20)
    } else {
        c
    }
}

/// The lower-case form of `c`: `c + 0x20` (wrapping) when its low byte is
/// an upper-case letter, else `c`.
pub open spec fn to_lower(c: u64) -> u64 {
    if is_upper(c & 0xff) {
        wadd(c, 0x20)
    } else {
        c
    }
}

/// `args[0]` turned to upper case.
pub fn toupper(state: &mut State, args: Vec<Value>) -> (r: Value)
    requires
        args@.len() >= 1,
    ensures
        forall|env: spec_fn(u64) -> u64| #[trigger] r.eval(env) == to_upper(args@[0].eval(env)),
        r.is_concrete() <==> args@[0].is_concrete(),
        *final(state) == *old(state),
{
    let mut largs: Vec<Value> = Vec::new();
    largs.push(args[0].duplicate());
    let islo = islower(state, largs);
    let shifted = Value::binary(BinOp::Sub, args[0].duplicate(), Value::Concrete(0x20));
    let r = Value::ite(islo, shifted, args[0].duplicate());
    proof {
        if islo.is_concrete() {
            let env0 = |x: u64| 0u64;
            assert(islo.eval(env0) == islo.word());
        }
    }
    r
}

/// `args[0]` turned to lower case.
pub fn tolower(state: &mut State, args: Vec<Value>) -> (r: Value)
    requires
        args@.len() >= 1,
    ensures
        forall|env: spec_fn(u64) -> u64| #[trigger] r.eval(env) == to_lower(args@[0].eval(env)),
        r.is_concrete() <==> args@[0].is_concrete(),
        *final(state) == *old(state),
{
    let mut uargs: Vec<Value> = Vec::new();
    uargs.push(args[0].duplicate());
    let isup = isupper(state, uargs);
    let shifted = Value::binary(BinOp::Add, args[0].duplicate(), Value::Concrete(0x20));
    let r = Value::ite(isup, shifted, args[0].duplicate());
    proof {
        if isup.is_concrete() {
            let env0 = |x: u64| 0u64;
            assert(isup.eval(env0) == isup.word());
        }
    }
    r
}

/// Returns 0.
pub fn zero(_state: &mut State, _args: Vec<Value>) -> (r: Value)
    ensures
        r == Value::Concrete(0),
        *final(_state) == *old(_state),
{
    Value::Concrete(0)
}

/// Returns 0: output is never buffered.
pub fn fflush(_state: &mut State, _args: Vec<Value>) -> (r: Value)
    ensures
        r == Value::Concrete(0),
        *final(_state) == *old(_state),
{
    Value::Concrete(0)
}

/// The process id of this path.
pub fn getpid(state: &mut State, _args: Vec<Value>) -> (r: Value)
    ensures
        r == Value::Concrete(old(state).pid),
        *final(state) == *old(state),
{
    Value::Concrete(state.pid)
}

/// Forks: the path's process id goes up by one, and the result is a new
/// word symbol constrained to be that id (parent), 0 (child) or -1
/// (failure), so that branching on it splits the path.
pub fn fork(state: &mut State, _args: Vec<Value>) -> (r: Value)
    requires
        old(state).wf(),
        old(state).pid < u64::MAX,
    ensures
        final(state).wf(),
        final(state).pid == old(state).pid + 1,
        r == Value::Symbol(old(state).symbols.len() as u64, crate::value::Width::Word),
        final(state).symbols@ == old(state).symbols@.push(
            crate::state::SymbolInfo {
                kind: crate::state::SymbolKind::Pid(final(state).pid),
                width: crate::value::Width::Word,
            },
        ),
        final(state).model@ == old(state).model@.push(final(state).pid),
        final(state).constraints@.len() == old(state).constraints@.len() + 1,
        final(state).constraints@.drop_last() == old(state).constraints@,
        forall|env: spec_fn(u64) -> u64| #[trigger]
            final(state).constraints@.last().eval(env) == flag(
                r.eval(env) == final(state).pid || r.eval(env) == 0 || r.eval(env) == u64::MAX,
            ),
        forall|env: spec_fn(u64) -> u64, target: u64|
            #[trigger] old(state).satisfied_by(env) && #[trigger] fork_outcome(
                final(state).pid,
                target,
            ) ==> exists|env2: spec_fn(u64) -> u64|
                final(state).satisfied_by(env2) && #[trigger] r.eval(env2) == target,
        final(state).memory == old(state).memory,
        final(state).filesystem == old(state).filesystem,
        final(state).status == old(state).status,
{
    let cpid = state.pid + 1;
    state.pid = cpid;
    let pid = state.fresh_symbol(crate::state::SymbolKind::Pid(cpid), crate::value::Width::Word, cpid);
    let is_parent = Value::binary(BinOp::Eq, pid.duplicate(), Value::Concrete(cpid));
    let is_child = Value::binary(BinOp::Eq, pid.duplicate(), Value::Concrete(0));
    let failed = Value::binary(BinOp::Eq, pid.duplicate(), Value::Concrete(0xffff_ffff_ffff_ffff));
    let c = Value::binary(BinOp::Or, Value::binary(BinOp::Or, is_parent, is_child), failed);
    let ghost c0 = c;
    let ghost cs = state.constraints@;
    proof {
        let me = state.model_env();
        assert(pid.eval(me) == cpid);
        lemma_flags(cpid == cpid, cpid == 0);
        lemma_flags(cpid == cpid || cpid == 0, cpid == u64::MAX);
    }
    state.assert_constraint(c);
    proof {
        assert(state.constraints@.drop_last() =~= cs);
        assert forall|env: spec_fn(u64) -> u64| #[trigger]
            state.constraints@.last().eval(env) == flag(
                pid.eval(env) == cpid || pid.eval(env) == 0 || pid.eval(env) == u64::MAX,
            ) by {
            let x = pid.eval(env);
            lemma_flags(x == cpid, x == 0);
            lemma_flags(x == cpid || x == 0, x == u64::MAX);
        }
        let id = old(state).symbols@.len() as u64;
        assert forall|env: spec_fn(u64) -> u64, target: u64|
            #[trigger] old(state).satisfied_by(env) && #[trigger] fork_outcome(
                cpid,
                target,
            ) implies exists|env2: spec_fn(u64) -> u64|
                state.satisfied_by(env2) && #[trigger] pid.eval(env2) == target by {
            let env2 = |x: u64| if x == id { target } else { env(x) };
            assert forall|i: int| 0 <= i < state.constraints@.len() implies #[trigger] state.constraints@[i].eval(
                env2,
            ) != 0 by {
                if i < cs.len() {
                    assert(state.constraints@[i] == cs[i]);
                    crate::value::lemma_eval_agrees(cs[i], old(state).symbols@.len(), env2, env);
                    assert(old(state).constraints@[i].eval(env) != 0);
                } else {
                    assert(state.constraints@[i] == state.constraints@.last());
                    lemma_flags(target == cpid, target == 0);
                    lemma_flags(target == cpid || target == 0, target == u64::MAX);
                }
            }
            assert(pid.eval(env2) == target);
        }
    }
    pid
}

/// `target` is a pid that `fork` can give back when the child gets pid
/// `child`: the child's pid (in the parent), 0 (in the child) or -1.
pub open spec fn fork_outcome(child: u64, target: u64) -> bool {
    target == child || target == 0 || target == u64::MAX
}

/// Returns the page size, 4096.
pub fn getpagesize(_state: &mut State, _args: Vec<Value>) -> (r: Value)
    ensures
        r == Value::Concrete(0x1000),
        *final(_state) == *old(_state),
{
    Value::Concrete(0x1000)
}

/// Fills `args[1]` bytes from `args[0]` on with new symbolic bytes, the host
/// name; returns 0. A symbolic pointer or length is taken as it is in the
/// model, and the path is pinned to it before the new symbols are made.
pub fn gethostname(state: &mut State, args: Vec<Value>) -> (r: Value)
    requires
        old(state).wf(),
        known_args(*old(state), args@, 2),
        in_range(argv(*old(state), args@, 0), argv(*old(state), args@, 1) as int),
    ensures
        final(state).wf(),
        r == Value::Concrete(0),
        final(state).symbols@ == old(state).symbols@ + Seq::new(
            argv(*old(state), args@, 1) as nat,
            |i: int|
                crate::state::SymbolInfo {
                    kind: crate::state::SymbolKind::Hostname(i as u64),
                    width: crate::value::Width::Byte,
                },
        ),
        final(state).memory.bytes@ == store(
            old(state).memory.bytes@,
            argv(*old(state), args@, 0),
            Seq::new(
                argv(*old(state), args@, 1) as nat,
                |i: int|
                    Value::Symbol((old(state).symbols.len() + i) as u64, crate::value::Width::Byte),
            ),
        ),
        final(state).memory.heap_next == old(state).memory.heap_next,
        final(state).memory.blocks@ == old(state).memory.blocks@,
        final(state).filesystem == old(state).filesystem,
        final(state).pid == old(state).pid,
        final(state).status == old(state).status,
        final(state).constraints@ == old(state).constraints@ + old(state).pins(seq![args@[0], args@[1]]),
        final(state).model@ == old(state).model@ + Seq::new(argv(*old(state), args@, 1) as nat, |i: int| 0u64),
{
    let w = concretize_args(state, &args, 2);
    assert(args@.take(2) =~= seq![args@[0], args@[1]]);
    let addr = w[0];
    let len = w[1];
    let ghost s1 = *state;
    let ghost s0 = state.symbols@;
    let mut data: Vec<Value> = Vec::new();
    let mut i: u64 = 0;
    while i < len
        invariant
            i <= len,
            state.wf(),
            state.memory == s1.memory,
            state.filesystem == s1.filesystem,
            state.pid == s1.pid,
            state.status == s1.status,
            state.constraints == s1.constraints,
            state.model@ == s1.model@ + Seq::new(i as nat, |k: int| 0u64),
            s0 == s1.symbols@,
            state.symbols@ == s0 + Seq::new(
                i as nat,
                |k: int|
                    crate::state::SymbolInfo {
                        kind: crate::state::SymbolKind::Hostname(k as u64),
                        width: crate::value::Width::Byte,
                    },
            ),
            data@ == Seq::new(
                i as nat,
                |k: int| Value::Symbol((s0.len() + k) as u64, crate::value::Width::Byte),
            ),
        decreases len - i,
    {
        let v = state.fresh_symbol(
            crate::state::SymbolKind::Hostname(i),
            crate::value::Width::Byte,
            0,
        );
        data.push(v);
        i = i + 1;
        assert(state.model@ =~= s1.model@ + Seq::new(i as nat, |k: int| 0u64));
        assert(data@ =~= Seq::new(
            i as nat,
            |k: int| Value::Symbol((s0.len() + k) as u64, crate::value::Width::Byte),
        ));
        assert(state.symbols@ =~= s0 + Seq::new(
            i as nat,
            |k: int|
                crate::state::SymbolInfo {
                    kind: crate::state::SymbolKind::Hostname(k as u64),
                    width: crate::value::Width::Byte,
                },
        ));
    }
    state.memory.write_bytes(addr, &data, len);
    assert(data@.take(len as int) =~= data@);
    Value::Concrete(0)
}

/// Returns 0 at once: time does not pass.
pub fn sleep(_state: &mut State, _args: Vec<Value>) -> (r: Value)
    ensures
        r == Value::Concrete(0),
        *final(_state) == *old(_state),
{
    Value::Concrete(0)
}

/// The first `k` bytes of a string of fixed length are concrete when they
/// end at or before its terminator.
pub proof fn lemma_string_bytes_concrete(m: Memory, a: u64, max: u64, k: int)
    requires
        str_known(m, a, max),
        0 <= k <= str_len(m, a, max) || (k == str_len(m, a, max) + 1 && str_len(m, a, max) < max),
    ensures
        crate::memory::all_concrete(m.region(a, k)),
{
    let s = m.region(a, max as int);
    lemma_settled_len(s, |x: u64| 0u64);
    let t = m.region(a, k);
    assert forall|i: int| 0 <= i < t.len() implies #[trigger] t[i].is_concrete() by {
        assert(t[i] == s[i]);
    }
}

/// A string compares equal to itself: `strcmp` of one argument twice
/// gives 0 under every assignment.
pub proof fn lemma_strcmp_self(s: State, x: Value, env: spec_fn(u64) -> u64)
    ensures
        strcmp_diff(s, seq![x, x], env) == 0,
{
    let args = seq![x, x];
    let k = min(len_at(s, args, 0, env), len_at(s, args, 1, env)) + 1;
    let r = s.memory.region(argv(s, args, 0), k);
    crate::memory::lemma_diff_self(r, env);
}

/// Swapping the arguments of `strcmp` negates the result (modulo 2^64)
/// under every assignment, so its sign flips. The two calls may start from
/// different states with the same memory and model, as after the pins of
/// the first call.
pub proof fn lemma_strcmp_swap(s: State, t: State, x: Value, y: Value, env: spec_fn(u64) -> u64)
    requires
        s.memory == t.memory,
        s.model@ == t.model@,
    ensures
        strcmp_diff(s, seq![x, y], env) == crate::value::wsub(0, strcmp_diff(t, seq![y, x], env)),
{
    let xy = seq![x, y];
    let yx = seq![y, x];
    lemma_same_model(s, t);
    assert(argv(s, xy, 0) == argv(t, yx, 1));
    assert(argv(s, xy, 1) == argv(t, yx, 0));
    let k = min(len_at(s, xy, 0, env), len_at(s, xy, 1, env)) + 1;
    assert(k == min(len_at(t, yx, 0, env), len_at(t, yx, 1, env)) + 1);
    crate::memory::lemma_diff_swap(
        s.memory.region(argv(s, xy, 0), k),
        s.memory.region(argv(s, xy, 1), k),
        env,
    );
}

/// Two strings of fixed lengths below `max`: their first `n` bytes are
/// concrete when `n` is the shorter length plus one.
pub proof fn lemma_compared_bytes_concrete(m: Memory, a: u64, b: u64, max: u64, n: u64)
    requires
        str_known(m, a, max),
        str_known(m, b, max),
        n == wadd(min(str_len(m, a, max), str_len(m, b, max)) as u64, 1),
    ensures
        str_len(m, a, max) < max && str_len(m, b, max) < max ==> crate::memory::all_concrete(
            m.region(a, n as int),
        ) && crate::memory::all_concrete(m.region(b, n as int)),
{
    if str_len(m, a, max) < max && str_len(m, b, max) < max {
        lemma_string_bytes_concrete(m, a, max, n as int);
        lemma_string_bytes_concrete(m, b, max, n as int);
    }
}

/// The path named by the C string at `args[0]` in the model, each byte
/// modulo 256.
pub open spec fn model_path(s: State, args: Seq<Value>) -> Seq<u8> {
    Seq::new(
        mlen(s, args, 0) as nat,
        |i: int| (s.val(s.memory.region(argv(s, args, 0), mlen(s, args, 0))[i]) % 256) as u8,
    )
}

/// Reads the path at `args[0]` from memory, each byte as it is in the
/// model; symbolic ones are pinned to it.
fn read_path(state: &mut State, args: &Vec<Value>) -> (p: Vec<u8>)
    requires
        old(state).wf(),
        known_args(*old(state), args@, 1),
        window_in_range(*old(state), args@, 0),
    ensures
        final(state).wf(),
        p@ == model_path(*old(state), args@),
        final(state).memory == old(state).memory,
        final(state).filesystem == old(state).filesystem,
        final(state).pid == old(state).pid,
        final(state).status == old(state).status,
        old(state).pinned_to(*final(state)),
        path_pinned(*old(state), *final(state), args@),
{
    let addr = state.concretize(&args[0]);
    let ghost s1 = *state;
    let length = concrete_strlen(state, addr, MAX_LEN);
    let ghost len = choose|len: Value|
        #[trigger] string_length(len, old(state).memory.region(addr, MAX_LEN as int)) && s1.pinned_at(
            *state,
            seq![len],
        );
    proof {
        crate::state::lemma_pinned_at_trans(*old(state), s1, *state, seq![args@[0]], seq![len]);
        assert(seq![args@[0]] + seq![len] =~= seq![args@[0], len]);
        assert(s1.memory == old(state).memory);
        crate::state::lemma_pinned_trans(*old(state), s1, *state);
        lemma_same_model(*old(state), s1);
        lemma_same_model(*old(state), *state);
    }
    let ghost reg = old(state).memory.region(addr, length as int);
    let mut p: Vec<u8> = Vec::new();
    let mut i: u64 = 0;
    while i < length
        invariant
            i <= length <= MAX_LEN,
            in_range(addr, MAX_LEN as int),
            state.wf(),
            reg == old(state).memory.region(addr, length as int),
            state.memory == old(state).memory,
            state.filesystem == old(state).filesystem,
            state.pid == old(state).pid,
            state.status == old(state).status,
            old(state).pinned_to(*state),
            old(state).pinned_at(*state, seq![args@[0], len] + reg.take(i as int)),
            p@ == Seq::new(i as nat, |k: int| (old(state).val(reg[k]) % 256) as u8),
        decreases length - i,
    {
        let b = state.memory.read_byte(addr + i);
        assert(b == reg[i as int]);
        proof {
            lemma_same_model(*old(state), *state);
            crate::memory::lemma_region_below(state.memory, addr, length as int, state.symbols@.len());
        }
        let ghost s2 = *state;
        let x = state.concretize(&b);
        proof {
            crate::state::lemma_pinned_trans(*old(state), s2, *state);
            crate::state::lemma_pinned_at_trans(*old(state), s2, *state, seq![args@[0], len] + reg.take(i as int), seq![b]);
            assert(seq![args@[0], len] + reg.take(i as int) + seq![b] =~= seq![args@[0], len] + reg.take(i + 1));
        }
        p.push((x % 256) as u8);
        i = i + 1;
        assert(p@ =~= Seq::new(i as nat, |k: int| (old(state).val(reg[k]) % 256) as u8));
    }
    assert(p@ =~= model_path(*old(state), args@));
    assert(reg.take(length as int) =~= reg);
    assert(string_length(len, old(state).memory.region(argv(*old(state), args@, 0), MAX_LEN as int)));
    p
}

/// Opens the file named by the C string at `args[0]` for reading: its
/// descriptor, or -1 when there is no such file. A symbolic pointer, length
/// or path byte is taken as it is in the model, and the path is pinned to
/// it.
pub fn open(state: &mut State, args: Vec<Value>) -> (r: Value)
    requires
        old(state).wf(),
        known_args(*old(state), args@, 1),
        window_in_range(*old(state), args@, 0),
    ensures
        final(state).wf(),
        match old(state).filesystem@.find(model_path(*old(state), args@)) {
            Some(f) => r == Value::Concrete(old(state).filesystem@.next_fd() as u64)
                && final(state).filesystem@ == old(state).filesystem@.with_opened(f),
            None => r == Value::Concrete(u64::MAX) && final(state).filesystem@ == old(
                state,
            ).filesystem@,
        },
        final(state).memory == old(state).memory,
        final(state).pid == old(state).pid,
        final(state).status == old(state).status,
        old(state).pinned_to(*final(state)),
        path_pinned(*old(state), *final(state), args@),
{
    let path = read_path(state, &args);
    let ghost s1 = *state;
    let r = match state.filesystem.open(&path) {
        Some(fd) => Value::Concrete(fd as u64),
        None => Value::Concrete(0xffff_ffff_ffff_ffff),
    };
    proof {
        assert(state.constraints@.subrange(0, s1.constraints@.len() as int) =~= s1.constraints@);
        crate::state::lemma_pinned_trans(*old(state), s1, *state);
    }
    r
}

/// Closes descriptor `args[0]`; returns 0. A symbolic descriptor is taken
/// as it is in the model, and the path is pinned to it.
pub fn close(state: &mut State, args: Vec<Value>) -> (r: Value)
    requires
        old(state).wf(),
        known_args(*old(state), args@, 1),
    ensures
        final(state).wf(),
        r == Value::Concrete(0),
        final(state).filesystem@ == old(state).filesystem@.closed(
            argv(*old(state), args@, 0) as usize as int,
        ),
        final(state).memory == old(state).memory,
        final(state).pid == old(state).pid,
        final(state).status == old(state).status,
        old(state).pinned_at(*final(state), seq![args@[0]]),
{
    let fd = state.concretize(&args[0]);
    state.filesystem.close(fd as usize);
    Value::Concrete(0)
}

/// Reads up to `args[2]` values from descriptor `args[0]` into memory at
/// `args[1]`; returns how many were read. A symbolic descriptor or pointer is
/// taken as it is in the model, and the path is pinned to it. A symbolic
/// count is handled as `take_count` says: where it is guarded, as many values
/// as its bound are read, and each is stored guarded by the count.
pub fn read(state: &mut State, args: Vec<Value>) -> (r: Value)
    requires
        old(state).wf(),
        known_args(*old(state), args@, 3),
        in_range(argv(*old(state), args@, 1), span(*old(state), args@[2]) as int),
    ensures
        final(state).wf(),
        r == Value::Concrete(
            old(state).filesystem@.read_data(
                argv(*old(state), args@, 0) as usize as int,
                span(*old(state), args@[2]),
            ).len() as u64,
        ),
        final(state).filesystem@ == old(state).filesystem@.after_read(
            argv(*old(state), args@, 0) as usize as int,
            span(*old(state), args@[2]),
        ),
        final(state).memory.bytes@ == store(
            old(state).memory.bytes@,
            argv(*old(state), args@, 1),
            counted(
                old(state).memory,
                argv(*old(state), args@, 1),
                old(state).filesystem@.read_data(
                    argv(*old(state), args@, 0) as usize as int,
                    span(*old(state), args@[2]),
                ),
                args@[2],
            ),
        ),
        final(state).memory.heap_next == old(state).memory.heap_next,
        final(state).memory.blocks@ == old(state).memory.blocks@,
        final(state).pid == old(state).pid,
        final(state).status == old(state).status,
        old(state).pinned_at(*final(state), seq![args@[0], args@[1]] + count_pins(*old(state), args@[2])),
{
    let fd = state.concretize(&args[0]);
    let ghost s1 = *state;
    let addr = state.concretize(&args[1]);
    let ghost s2 = *state;
    let (length, guarded, _) = take_count(state, &args[2]);
    proof {
        crate::state::lemma_pinned_at_trans(*old(state), s1, s2, seq![args@[0]], seq![args@[1]]);
        lemma_count_pins_model(s2, *old(state), args@[2]);
        crate::state::lemma_pinned_at_trans(*old(state), s2, *state, seq![args@[0]] + seq![args@[1]], count_pins(*old(state), args@[2]));
        assert(seq![args@[0]] + seq![args@[1]] =~= seq![args@[0], args@[1]]);
        lemma_same_model(*old(state), s2);
    }
    let ghost s3 = *state;
    let data = state.filesystem.read(fd as usize, length);
    let len = data.len();
    proof {
        let fsv = old(state).filesystem@;
        match fsv.open_file(fd as usize as int) {
            Some(o) => {
                let c = fsv.contents[o.file as int];
                assert(data@.len() <= length);
            },
            None => {},
        }
    }
    if guarded {
        state.memory.write_guarded(addr, &data, &args[2]);
    } else {
        state.memory.write_bytes(addr, &data, length);
        assert(data@.take(len as int) =~= data@);
    }
    Value::Concrete(len as u64)
}

/// Writes `args[2]` bytes from memory at `args[1]` to descriptor `args[0]`;
/// returns how many. A symbolic descriptor or pointer is taken as it is in
/// the model, and the path is pinned to it. A symbolic count is handled as
/// `take_count` says: where it is guarded, as many bytes as its bound are
/// written.
pub fn write(state: &mut State, args: Vec<Value>) -> (r: Value)
    requires
        old(state).wf(),
        known_args(*old(state), args@, 3),
        in_range(argv(*old(state), args@, 1), span(*old(state), args@[2]) as int),
        old(state).filesystem@.write_fits(
            argv(*old(state), args@, 0) as usize as int,
            span(*old(state), args@[2]) as int,
        ),
    ensures
        final(state).wf(),
        r == Value::Concrete(span(*old(state), args@[2])),
        final(state).filesystem@ == old(state).filesystem@.after_write(
            argv(*old(state), args@, 0) as usize as int,
            old(state).memory.region(argv(*old(state), args@, 1), span(*old(state), args@[2]) as int),
        ),
        final(state).memory == old(state).memory,
        final(state).pid == old(state).pid,
        final(state).status == old(state).status,
        old(state).pinned_at(*final(state), seq![args@[0], args@[1]] + count_pins(*old(state), args@[2])),
{
    let w = concretize_args(state, &args, 2);
    let ghost s1 = *state;
    let fd = w[0];
    let addr = w[1];
    let (n, guarded, _) = take_count(state, &args[2]);
    proof {
        lemma_count_pins_model(s1, *old(state), args@[2]);
        crate::state::lemma_pinned_at_trans(*old(state), s1, *state, args@.take(2), count_pins(*old(state), args@[2]));
        assert(args@.take(2) =~= seq![args@[0], args@[1]]);
        lemma_same_model(*old(state), s1);
        crate::memory::lemma_region_below(state.memory, addr, n as int, state.symbols@.len());
    }
    let data = state.memory.read_bytes(addr, n);
    state.filesystem.write(fd as usize, data);
    Value::Concrete(n)
}

/// Moves descriptor `args[0]` to position `args[2]` (the third argument, not
/// the offset `args[1]`); returns that position. A symbolic descriptor or
/// position is taken as it is in the model, and the path is pinned to it.
pub fn lseek(state: &mut State, args: Vec<Value>) -> (r: Value)
    requires
        old(state).wf(),
        args@.len() >= 3,
        args@[0].below(old(state).symbols@.len()),
        args@[2].below(old(state).symbols@.len()),
    ensures
        final(state).wf(),
        r == Value::Concrete(argv(*old(state), args@, 2)),
        final(state).filesystem@ == old(state).filesystem@.seeked(
            argv(*old(state), args@, 0) as usize as int,
            argv(*old(state), args@, 2),
        ),
        final(state).memory == old(state).memory,
        final(state).pid == old(state).pid,
        final(state).status == old(state).status,
        old(state).pinned_at(*final(state), seq![args@[0], args@[2]]),
{
    let fd = state.concretize(&args[0]);
    let ghost s1 = *state;
    let pos = state.concretize(&args[2]);
    proof {
        crate::state::lemma_pinned_at_trans(*old(state), s1, *state, seq![args@[0]], seq![args@[2]]);
        assert(seq![args@[0]] + seq![args@[2]] =~= seq![args@[0], args@[2]]);
        lemma_same_model(*old(state), s1);
    }
    state.filesystem.seek(fd as usize, pos);
    Value::Concrete(pos)
}

/// 0 when the file named by the C string at `args[0]` exists, else -1. A
/// symbolic pointer, length or path byte is taken as it is in the model,
/// and the path is pinned to it.
pub fn access(state: &mut State, args: Vec<Value>) -> (r: Value)
    requires
        old(state).wf(),
        known_args(*old(state), args@, 1),
        window_in_range(*old(state), args@, 0),
    ensures
        final(state).wf(),
        r == (if old(state).filesystem@.find(model_path(*old(state), args@)) is Some {
            Value::Concrete(0)
        } else {
            Value::Concrete(u64::MAX)
        }),
        final(state).memory == old(state).memory,
        final(state).filesystem == old(state).filesystem,
        final(state).pid == old(state).pid,
        final(state).status == old(state).status,
        old(state).pinned_to(*final(state)),
        path_pinned(*old(state), *final(state), args@),
{
    let path = read_path(state, &args);
    state.filesystem.access(&path)
}

/// Ends this path; returns 0.
pub fn exit(state: &mut State, _args: Vec<Value>) -> (r: Value)
    ensures
        r == Value::Concrete(0),
        final(state).status == crate::state::StateStatus::Inactive,
        final(state).memory == old(state).memory,
        final(state).filesystem == old(state).filesystem,
        final(state).pid == old(state).pid,
        final(state).symbols == old(state).symbols,
        final(state).constraints == old(state).constraints,
{
    state.status = crate::state::StateStatus::Inactive;
    Value::Concrete(0)
}

/// After `strcpy`, the string at the destination is as long as the string
/// at the source was.
pub proof fn lemma_strcpy_keeps_length(m1: Memory, m2: Memory, dst: u64, src: u64)
    requires
        str_known(m1, src, MAX_LEN),
        in_range(dst, MAX_LEN as int),
        in_range(dst, str_len(m1, src, MAX_LEN) + 1),
        m2.bytes@ == store(m1.bytes@, dst, m1.region(src, str_len(m1, src, MAX_LEN) + 1)),
    ensures
        str_known(m2, dst, MAX_LEN),
        str_len(m2, dst, MAX_LEN) == str_len(m1, src, MAX_LEN),
{
    let w1 = m1.region(src, MAX_LEN as int);
    let w2 = m2.region(dst, MAX_LEN as int);
    let l = str_len(m1, src, MAX_LEN);
    lemma_settled_len(w1, |x: u64| 0u64);
    let d = m1.region(src, l + 1);
    crate::memory::lemma_read_after_write(m1, m2, dst, d);
    assert forall|i: int| 0 <= i <= known_len(w1) && i < w1.len() implies #[trigger] w2[i]
        == w1[i] by {
        assert(w2[i] == m2.region(dst, l + 1)[i]);
        assert(d[i] == w1[i]);
    }
    crate::memory::lemma_settled_prefix(w1, w2);
}

/// Turning a lower-case letter to upper case gives an upper-case letter, and
/// turning that back gives the letter again; likewise the other way.
pub proof fn lemma_case_round_trip(c: u64)
    ensures
        is_lower(c & 0xff) ==> is_upper(to_upper(c) & 0xff) && to_lower(to_upper(c)) == c,
        is_upper(c & 0xff) ==> is_lower(to_lower(c) & 0xff) && to_upper(to_lower(c)) == c,
        !is_lower(c & 0xff) ==> to_upper(c) == c,
        !is_upper(c & 0xff) ==> to_lower(c) == c,
{
    if is_lower(c & 0xff) {
        assert(0x61 <= c & 0xff < 0x7b ==> (((c - 0x20) as u64) & 0xff) == (c & 0xff) - 0x20
            && c >= 0x20) by (bit_vector);
    }
    if is_upper(c & 0xff) {
        assert(0x41 <= c & 0xff < 0x5b ==> (((c + 0x20) as u64) & 0xff) == (c & 0xff) + 0x20
            && c + 0x20 <= u64::MAX) by (bit_vector);
    }
}

/// `memfrob` twice gives every byte back.
pub proof fn lemma_frob_twice(v: Value, env: spec_fn(u64) -> u64)
    ensures
        crate::value::combine(
            BinOp::Xor,
            crate::value::combine(BinOp::Xor, v, Value::Concrete(0x2a)),
            Value::Concrete(0x2a),
        ).eval(env) == v.eval(env),
{
    let x = v.eval(env);
    let once = crate::value::combine(BinOp::Xor, v, Value::Concrete(0x2a));
    crate::value::lemma_combine_eval(BinOp::Xor, v, Value::Concrete(0x2a), env);
    crate::value::lemma_combine_eval(BinOp::Xor, once, Value::Concrete(0x2a), env);
    assert((x ^ 0x2a) ^ 0x2a == x) by (bit_vector);
}

/// Two path states agree in every part a call can change.
pub open spec fn same_path(t1: State, t2: State) -> bool {
    &&& t1.memory.bytes@ == t2.memory.bytes@
    &&& t1.memory.heap_next == t2.memory.heap_next
    &&& t1.memory.blocks@ == t2.memory.blocks@
    &&& t1.filesystem@ == t2.filesystem@
    &&& t1.pid == t2.pid
    &&& t1.status == t2.status
    &&& t1.symbols@ == t2.symbols@
    &&& t1.model@ == t2.model@
    &&& t1.constraints@ == t2.constraints@
}

/// `printf` does what `puts` does: from one state, two states that each
/// meet the contract the two calls share (`t1`, `r1` from one call and `t2`,
/// `r2` from the other) are the same, and so are the results under every
/// assignment.
pub proof fn lemma_printf_is_puts(s: State, args: Seq<Value>, t1: State, r1: Value, t2: State, r2: Value)
    requires
        forall|env: spec_fn(u64) -> u64| #[trigger]
            r1.eval(env) == zero_scan(s.memory.region(argv(s, args, 0), MAX_LEN as int), env),
        forall|env: spec_fn(u64) -> u64| #[trigger]
            r2.eval(env) == zero_scan(s.memory.region(argv(s, args, 0), MAX_LEN as int), env),
        t1.filesystem@ == s.filesystem@.after_write(
            1,
            s.memory.region(argv(s, args, 0), str_end(s, args)).push(Value::Concrete(10)),
        ),
        t2.filesystem@ == s.filesystem@.after_write(
            1,
            s.memory.region(argv(s, args, 0), str_end(s, args)).push(Value::Concrete(10)),
        ),
        t1.memory == s.memory,
        t2.memory == s.memory,
        t1.pid == s.pid && t2.pid == s.pid,
        t1.status == s.status && t2.status == s.status,
        s.pinned_at(t1, seq![args[0]]),
        s.pinned_at(t2, seq![args[0]]),
    ensures
        same_path(t1, t2),
        forall|env: spec_fn(u64) -> u64| #[trigger] r1.eval(env) == r2.eval(env),
{
    assert forall|env: spec_fn(u64) -> u64| #[trigger] r1.eval(env) == r2.eval(env) by {
        assert(r1.eval(env) == zero_scan(s.memory.region(argv(s, args, 0), MAX_LEN as int), env));
        assert(r2.eval(env) == zero_scan(s.memory.region(argv(s, args, 0), MAX_LEN as int), env));
    }
}

/// `memcpy` does what `memmove` does, overlapping ranges included: from one
/// state, two states that each meet the contract the two calls share are
/// the same (both calls return `args[0]`).
pub proof fn lemma_memcpy_is_memmove(s: State, args: Seq<Value>, t1: State, t2: State)
    requires
        t1.memory.bytes@ == store(s.memory.bytes@, argv(s, args, 0), copied(s, args)),
        t2.memory.bytes@ == store(s.memory.bytes@, argv(s, args, 0), copied(s, args)),
        bytes_changed_pinned(s, t1, seq![args[0], args[1]] + count_pins(s, args[2])),
        bytes_changed_pinned(s, t2, seq![args[0], args[1]] + count_pins(s, args[2])),
    ensures
        same_path(t1, t2),
{
}

/// `bzero(a, n)` does what `memset(a, 0, n)` does: from one state, a state
/// that meets `bzero`'s contract for `[a, n]` and one that meets `memset`'s
/// for `[a, 0, n]` are the same.
pub proof fn lemma_bzero_is_memset_zero(s: State, a: Value, n: Value, t1: State, t2: State)
    requires
        t1.memory.bytes@ == store(
            s.memory.bytes@,
            argv(s, seq![a, n], 0),
            counted(
                s.memory,
                argv(s, seq![a, n], 0),
                Seq::new(span(s, seq![a, n][1]) as nat, |i: int| Value::Concrete(0)),
                seq![a, n][1],
            ),
        ),
        bytes_changed_pinned(s, t1, seq![seq![a, n][0]] + count_pins(s, seq![a, n][1])),
        t2.memory.bytes@ == store(
            s.memory.bytes@,
            argv(s, seq![a, Value::Concrete(0), n], 0),
            counted(
                s.memory,
                argv(s, seq![a, Value::Concrete(0), n], 0),
                Seq::new(
                    span(s, seq![a, Value::Concrete(0), n][2]) as nat,
                    |i: int| seq![a, Value::Concrete(0), n][1],
                ),
                seq![a, Value::Concrete(0), n][2],
            ),
        ),
        bytes_changed_pinned(
            s,
            t2,
            seq![seq![a, Value::Concrete(0), n][0]] + count_pins(s, seq![a, Value::Concrete(0), n][2]),
        ),
    ensures
        same_path(t1, t2),
{
    let z = seq![a, Value::Concrete(0), n];
    let an = seq![a, n];
    assert(z[0] == a && z[1] == Value::Concrete(0) && z[2] == n);
    assert(an[0] == a && an[1] == n);
    assert(Seq::new(span(s, n) as nat, |i: int| z[1]) =~= Seq::new(
        span(s, n) as nat,
        |i: int| Value::Concrete(0),
    ));
}

/// Two calls of `memfrob` over the same `n` bytes at `a` give every byte
/// back: under every assignment each byte is as it was, and a byte that was
/// concrete is the same value again.
pub proof fn lemma_memfrob_twice(m1: Memory, m2: Memory, m3: Memory, a: u64, n: u64, x: u64, env: spec_fn(u64) -> u64)
    requires
        in_range(a, n as int),
        m2.bytes@ == store(
            m1.bytes@,
            a,
            m1.region(a, n as int).map_values(
                |v: Value| crate::value::combine(BinOp::Xor, v, Value::Concrete(0x2a)),
            ),
        ),
        m3.bytes@ == store(
            m2.bytes@,
            a,
            m2.region(a, n as int).map_values(
                |v: Value| crate::value::combine(BinOp::Xor, v, Value::Concrete(0x2a)),
            ),
        ),
    ensures
        m3.byte_at(x).eval(env) == m1.byte_at(x).eval(env),
        m1.byte_at(x).is_concrete() ==> m3.byte_at(x) == m1.byte_at(x),
{
    if a <= x < a + n {
        let i = x - a;
        let v = m1.byte_at(x);
        assert(m1.region(a, n as int)[i] == v);
        let once = crate::value::combine(BinOp::Xor, v, Value::Concrete(0x2a));
        assert(m2.bytes@.contains_key(x));
        assert(m2.byte_at(x) == once);
        assert(m2.region(a, n as int)[i] == once);
        assert(m3.bytes@.contains_key(x));
        assert(m3.byte_at(x) == crate::value::combine(BinOp::Xor, once, Value::Concrete(0x2a)));
        lemma_frob_twice(v, env);
        if v.is_concrete() {
            let c = v.word();
            assert((c ^ 0x2a) ^ 0x2a == c) by (bit_vector);
        }
    } else {
        crate::memory::lemma_write_frame(m1, m2, a, m1.region(a, n as int).map_values(
            |v: Value| crate::value::combine(BinOp::Xor, v, Value::Concrete(0x2a)),
        ), x);
        crate::memory::lemma_write_frame(m2, m3, a, m2.region(a, n as int).map_values(
            |v: Value| crate::value::combine(BinOp::Xor, v, Value::Concrete(0x2a)),
        ), x);
    }
}

/// `memchr` and `memrchr` (forward and backward `memchr_help`) over the same
/// bytes: both find the byte or neither does, the first address is no later
/// than the last, and they are equal exactly when the byte occurs once.
pub proof fn lemma_memchr_directions(m: Memory, addr: u64, x: u64, len: u64, env: spec_fn(u64) -> u64)
    requires
        0 < addr,
        in_range(addr, len as int),
    ensures
        (m.search_spec(addr, x, 1, len, false, env) == 0) == (m.search_spec(addr, x, 1, len, true, env) == 0),
        m.search_spec(addr, x, 1, len, false, env) <= m.search_spec(addr, x, 1, len, true, env),
        m.search_spec(addr, x, 1, len, false, env) != 0 ==> (m.search_spec(addr, x, 1, len, false, env)
            == m.search_spec(addr, x, 1, len, true, env) <==> forall|i: int, j: int|
            0 <= i < len && 0 <= j < len && #[trigger] crate::memory::pack(
                m.region(addr, len as int).subrange(i, i + 1),
                env,
            ) == x & crate::memory::word_mask(1) && #[trigger] crate::memory::pack(
                m.region(addr, len as int).subrange(j, j + 1),
                env,
            ) == x & crate::memory::word_mask(1) ==> i == j),
{
    let s = m.region(addr, len as int);
    let y = x & crate::memory::word_mask(1);
    let c = crate::memory::positions(len, 1) as int;
    assert(c == len);
    crate::memory::lemma_search_directions(s, y, 1, c, env);
    crate::memory::lemma_find_first_meaning(s, y, 1, 0, c, env);
    crate::memory::lemma_find_last_meaning(s, y, 1, c, env);
}

/// `memmem` with a one-byte needle finds what `memchr` finds for that byte,
/// over bytes that are below 256 (what each contract says the call gives,
/// for a concrete haystack length `hl`).
pub proof fn lemma_memmem_one_byte(m: Memory, h: u64, hl: u64, nd: u64, env: spec_fn(u64) -> u64)
    requires
        in_range(h, hl as int),
        m.byte_at(nd).eval(env) < 256,
        forall|i: int| 0 <= i < hl ==> #[trigger] m.region(h, hl as int)[i].eval(env) < 256,
    ensures
        crate::memory::found_address(
            h,
            crate::memory::find_seq(
                m.region(h, hl as int),
                m.region(nd, 1),
                0,
                crate::memory::positions(hl, 1) as int,
                env,
            ),
        ) == m.search_spec(h, m.byte_at(nd).eval(env), 1, hl, false, env),
{
    let x = m.byte_at(nd).eval(env);
    assert(m.region(nd, 1) =~= seq![m.byte_at(nd)]);
    assert(1u64 << 8u64 == 256u64) by (bit_vector);
    assert(crate::memory::word_mask(1) == 0xff);
    assert(x & 0xff == x) by (bit_vector)
        requires
            x < 256,
    ;
    crate::memory::lemma_one_byte_search(m.region(h, hl as int), m.byte_at(nd), x, 0, hl as int, env);
}

/// Law of the byte comparison (what `memcmp` gives): comparing `n` bytes
/// at `a` and `b` gives 0 exactly when the bytes are equal at every index,
/// zero bytes included.
pub proof fn lemma_region_diff_zero(m: Memory, a: u64, b: u64, n: int, env: spec_fn(u64) -> u64)
    requires
        0 <= n,
    ensures
        region_diff(m, a, b, n, env) == 0 <==> forall|i: int|
            0 <= i < n ==> #[trigger] m.byte_at((a + i) as u64).eval(env) == m.byte_at((b + i) as u64).eval(
                env,
            ),
{
    let s = m.region(a, n);
    let t = m.region(b, n);
    crate::memory::lemma_diff_scan_zero(s, t, env);
    if region_diff(m, a, b, n, env) == 0 {
        assert forall|i: int| 0 <= i < n implies #[trigger] m.byte_at((a + i) as u64).eval(env)
            == m.byte_at((b + i) as u64).eval(env) by {
            assert(s[i].eval(env) == t[i].eval(env));
        }
    } else {
        assert(!(forall|i: int| 0 <= i < s.len() ==> #[trigger] s[i].eval(env) == t[i].eval(env)));
        let i = choose|i: int| 0 <= i < s.len() && !(s[i].eval(env) == t[i].eval(env));
        assert(m.byte_at((a + i) as u64).eval(env) != m.byte_at((b + i) as u64).eval(env));
    }
}

/// Law of the byte comparison (what `memcmp` gives): at the first index
/// `i < n` where the bytes at `a` and `b` differ, the result is the
/// difference of those bytes (wrapping), whatever the equal bytes before `i`
/// are, zero bytes included.
pub proof fn lemma_region_diff_first_difference(m: Memory, a: u64, b: u64, n: int, i: int, env: spec_fn(u64) -> u64)
    requires
        0 <= i < n,
        m.byte_at((a + i) as u64).eval(env) != m.byte_at((b + i) as u64).eval(env),
        forall|k: int|
            0 <= k < i ==> #[trigger] m.byte_at((a + k) as u64).eval(env) == m.byte_at((b + k) as u64).eval(
                env,
            ),
    ensures
        region_diff(m, a, b, n, env) == crate::value::wsub(
            m.byte_at((a + i) as u64).eval(env),
            m.byte_at((b + i) as u64).eval(env),
        ),
{
    let s = m.region(a, n);
    let t = m.region(b, n);
    assert forall|k: int| 0 <= k < i implies #[trigger] s[k].eval(env) == t[k].eval(env) by {
        assert(m.byte_at((a + k) as u64).eval(env) == m.byte_at((b + k) as u64).eval(env));
    }
    crate::memory::lemma_diff_scan_first_difference(s, t, i, env);
}

/// Law of `isdigit`: of the 256 byte values, exactly the ten digits '0' to
/// '9' are digits.
pub proof fn lemma_isdigit_bytes(c: u64)
    requires
        c < 256,
    ensures
        is_digit(c) <==> (c == 0x30 || c == 0x31 || c == 0x32 || c == 0x33 || c == 0x34 || c
            == 0x35 || c == 0x36 || c == 0x37 || c == 0x38 || c == 0x39),
{
}

/// Law of `iscntrl`: of the 256 byte values, exactly 0x00 to 0x1f and 0x7f
/// are control characters; none from 0x80 up is.
pub proof fn lemma_iscntrl_bytes(c: u64)
    requires
        c < 256,
    ensures
        is_cntrl(c) <==> (c < 0x20 || c == 0x7f),
        0x80 <= c ==> !is_cntrl(c),
        0x20 <= c < 0x7f ==> !is_cntrl(c),
{
}

/// Law of `islower`, `isupper` and `isalpha`: of the 256 byte values, the
/// lower-case letters are exactly 'a' to 'z', the upper-case ones exactly
/// 'A' to 'Z', and the letters are those 52.
pub proof fn lemma_letter_bytes(c: u64)
    requires
        c < 256,
    ensures
        is_lower(c) <==> 0x61 <= c <= 0x7a,
        is_upper(c) <==> 0x41 <= c <= 0x5a,
        is_upper(c) || is_lower(c) <==> (0x41 <= c <= 0x5a || 0x61 <= c <= 0x7a),
{
}

/// Law of `isalnum`: of the 256 byte values, exactly the digits and the 52
/// letters.
pub proof fn lemma_isalnum_bytes(c: u64)
    requires
        c < 256,
    ensures
        is_upper(c) || is_lower(c) || is_digit(c) <==> (0x30 <= c <= 0x39 || 0x41 <= c <= 0x5a
            || 0x61 <= c <= 0x7a),
{
}

/// Law of `isblank`: of the 256 byte values, exactly the space and the tab.
pub proof fn lemma_isblank_bytes(c: u64)
    requires
        c < 256,
    ensures
        is_blank(c) <==> (c == 0x20 || c == 0x09),
{
}

/// Law of `toupper` and `tolower`: a word whose low byte is 'a' to 'z' goes
/// down by 0x20 (to 'A' to 'Z'), one whose low byte is 'A' to 'Z' goes up by
/// 0x20, and every other word is left as it is.
pub proof fn lemma_case_bytes(c: u64)
    ensures
        0x61 <= (c & 0xff) <= 0x7a ==> to_upper(c) == c - 0x20 && 0x41 <= (to_upper(c) & 0xff)
            <= 0x5a,
        !(0x61 <= (c & 0xff) <= 0x7a) ==> to_upper(c) == c,
        0x41 <= (c & 0xff) <= 0x5a ==> to_lower(c) == c + 0x20 && 0x61 <= (to_lower(c) & 0xff)
            <= 0x7a,
        !(0x41 <= (c & 0xff) <= 0x5a) ==> to_lower(c) == c,
{
    if 0x61 <= (c & 0xff) <= 0x7a {
        assert(0x61 <= c & 0xff <= 0x7a ==> c >= 0x20 && (((c - 0x20) as u64) & 0xff) == (c & 0xff)
            - 0x20) by (bit_vector);
    }
    if 0x41 <= (c & 0xff) <= 0x5a {
        assert(0x41 <= c & 0xff <= 0x5a ==> c + 0x20 <= u64::MAX && (((c + 0x20) as u64) & 0xff) == (
        c & 0xff) + 0x20) by (bit_vector);
    }
}

/// The low byte that the character classes look at is below 256.
pub proof fn lemma_char_arg_byte(args: Seq<Value>, env: spec_fn(u64) -> u64)
    ensures
        char_arg(args, env) < 256,
{
    let x = args[0].eval(env);
    assert(x & 0xff < 256) by (bit_vector);
}

/// Law of `memchr` and `memrchr`: a non-zero result is an address within
/// the `len` bytes from `addr` whose byte is the low byte of `x`, with no
/// such byte before it (after it, searching backward); the result is 0 only
/// when no byte there is the low byte of `x`.
pub proof fn lemma_memchr_result(m: Memory, addr: u64, x: u64, len: u64, reverse: bool, env: spec_fn(u64) -> u64)
    requires
        0 < addr,
        in_range(addr, len as int),
    ensures
        ({
            let r = m.search_spec(addr, x, 1, len, reverse, env);
            &&& r != 0 ==> addr <= r < addr + len && m.byte_at(r).eval(env) == x & 0xff
            &&& r != 0 && !reverse ==> forall|q: int|
                addr <= q < r ==> #[trigger] m.byte_at(q as u64).eval(env) != x & 0xff
            &&& r != 0 && reverse ==> forall|q: int|
                r < q < addr + len ==> #[trigger] m.byte_at(q as u64).eval(env) != x & 0xff
            &&& r == 0 ==> forall|q: int|
                addr <= q < addr + len ==> #[trigger] m.byte_at(q as u64).eval(env) != x & 0xff
        }),
{
    let s = m.region(addr, len as int);
    assert(1u64 << 8u64 == 256u64) by (bit_vector);
    assert(crate::memory::word_mask(1) == 0xff);
    let y = x & crate::memory::word_mask(1);
    assert(crate::memory::positions(len, 1) == len);
    crate::memory::lemma_find_first_meaning(s, y, 1, 0, len as int, env);
    crate::memory::lemma_find_last_meaning(s, y, 1, len as int, env);
    assert forall|q: int| 0 <= q < len implies #[trigger] crate::memory::pack(s.subrange(q, q + 1), env)
        == m.byte_at((addr + q) as u64).eval(env) by {
        assert(s.subrange(q, q + 1).len() == 1);
        assert(s.subrange(q, q + 1)[0] == s[q]);
    }
    assert forall|q: int| addr <= q < addr + len implies #[trigger] m.byte_at(q as u64).eval(env)
        == crate::memory::pack(s.subrange(q - addr, q - addr + 1), env) by {
        assert(crate::memory::pack(s.subrange(q - addr, q - addr + 1), env) == m.byte_at(
            (addr + (q - addr)) as u64,
        ).eval(env));
    }
}

} // verus!
