//! Byte-addressed memory of the simulated machine, with a heap allocator.
//!
//! Every address holds one `Value`; an address that was never written holds
//! the concrete byte 0.
use vstd::prelude::*;
use std::collections::HashMap;
use crate::value::{BinOp, Value, flag, wadd, wmul, wsub};

verus! {

broadcast use vstd::std_specs::hash::group_hash_axioms;

/// First address the heap hands out.
pub const HEAP_START: u64 = 0x4000_0000;

/// End (exclusive) of the heap.
pub const HEAP_END: u64 = 0x8000_0000;

/// Alignment of every heap block.
pub const HEAP_ALIGN: u64 = 16;

/// `n` bytes from `a` on stay below 2^64.
pub open spec fn in_range(a: u64, n: int) -> bool {
    0 <= n && a + n <= 0x1_0000_0000_0000_0000
}

/// The map `m` after `data` has been written from `addr` on.
pub open spec fn store(m: Map<u64, Value>, addr: u64, data: Seq<Value>) -> Map<u64, Value> {
    m.union_prefer_right(
        Map::new(|a: u64| addr <= a < addr + data.len(), |a: u64| data[a - addr]),
    )
}

/// Length of the C string in `s` under `env`: the index of the first byte
/// that evaluates to zero, or `s.len()` when there is none.
pub open spec fn zero_scan(s: Seq<Value>, env: spec_fn(u64) -> u64) -> nat
    decreases s.len(),
{
    if s.len() == 0 {
        0
    } else if s[0].eval(env) == 0 {
        0
    } else {
        1 + zero_scan(s.drop_first(), env)
    }
}

/// The bytes of `s` fix the length of the C string in it: every byte up to
/// the first concrete zero (or to the end) is concrete.
pub open spec fn settled(s: Seq<Value>) -> bool
    decreases s.len(),
{
    if s.len() == 0 {
        true
    } else {
        s[0].is_concrete() && (s[0].word() == 0 || settled(s.drop_first()))
    }
}

/// Index of the first byte of `s` that is a concrete zero, or `s.len()`:
/// no assignment makes the C string in `s` longer.
pub open spec fn known_end(s: Seq<Value>) -> nat
    decreases s.len(),
{
    if s.len() == 0 {
        0
    } else if s[0] == Value::Concrete(0) {
        0
    } else {
        1 + known_end(s.drop_first())
    }
}

/// Number of leading bytes of `s` that are concrete and non-zero: no
/// assignment makes the C string in `s` shorter.
pub open spec fn sure_len(s: Seq<Value>) -> nat
    decreases s.len(),
{
    if s.len() == 0 {
        0
    } else if s[0].is_concrete() && s[0].word() != 0 {
        1 + sure_len(s.drop_first())
    } else {
        0
    }
}

/// Length of the C string in `s` when `settled(s)`.
pub open spec fn known_len(s: Seq<Value>) -> nat
    decreases s.len(),
{
    if s.len() == 0 {
        0
    } else if s[0].word() == 0 {
        0
    } else {
        1 + known_len(s.drop_first())
    }
}

/// When the bytes are settled, the first concrete zero is where the string
/// ends.
pub proof fn lemma_settled_end(s: Seq<Value>)
    requires
        settled(s),
    ensures
        known_end(s) == known_len(s),
    decreases s.len(),
{
    if s.len() > 0 && s[0].word() != 0 {
        assert(s[0] != Value::Concrete(0));
        lemma_settled_end(s.drop_first());
    }
}

/// No assignment makes the C string in `s` shorter than its sure length.
pub proof fn lemma_sure_len(s: Seq<Value>, env: spec_fn(u64) -> u64)
    ensures
        sure_len(s) <= zero_scan(s, env),
        sure_len(s) <= s.len(),
    decreases s.len(),
{
    if s.len() > 0 && s[0].is_concrete() && s[0].word() != 0 {
        lemma_sure_len(s.drop_first(), env);
    }
}

/// The first concrete zero lies within the bytes, and no assignment puts
/// the terminator past it.
pub proof fn lemma_known_end(s: Seq<Value>, env: spec_fn(u64) -> u64)
    ensures
        known_end(s) <= s.len(),
        zero_scan(s, env) <= known_end(s),
    decreases s.len(),
{
    if s.len() > 0 && s[0] != Value::Concrete(0) {
        lemma_known_end(s.drop_first(), env);
    }
}

/// When the bytes are settled, the string length does not depend on the
/// symbols, and every byte before it is concrete.
pub proof fn lemma_settled_len(s: Seq<Value>, env: spec_fn(u64) -> u64)
    requires
        settled(s),
    ensures
        zero_scan(s, env) == known_len(s),
        known_len(s) <= s.len(),
        forall|i: int| 0 <= i < known_len(s) ==> #[trigger] s[i].is_concrete() && s[i].word() != 0,
        known_len(s) < s.len() ==> s[known_len(s) as int] == Value::Concrete(0),
    decreases s.len(),
{
    if s.len() > 0 && s[0].word() != 0 {
        lemma_settled_len(s.drop_first(), env);
        assert forall|i: int| 0 <= i < known_len(s) implies #[trigger] s[i].is_concrete()
            && s[i].word() != 0 by {
            if i > 0 {
                assert(s[i] == s.drop_first()[i - 1]);
            }
        }
        if known_len(s) < s.len() {
            assert(s[known_len(s) as int] == s.drop_first()[known_len(s.drop_first()) as int]);
        }
    } else if s.len() > 0 {
        assert(s[0] == Value::Concrete(0));
    }
}

/// The memory of the simulated machine.
pub struct Memory {
    /// Bytes that were written, by address.
    pub bytes: HashMap<u64, Value>,
    /// Next free heap address.
    pub heap_next: u64,
    /// Live heap blocks: start address to size.
    pub blocks: HashMap<u64, u64>,
}

impl Memory {
    /// The byte at address `a`.
    pub open spec fn byte_at(self, a: u64) -> Value {
        if self.bytes@.contains_key(a) {
            self.bytes@[a]
        } else {
            Value::Concrete(0)
        }
    }

    /// The `n` bytes from `a` on.
    pub open spec fn region(self, a: u64, n: int) -> Seq<Value> {
        Seq::new(n as nat, |i: int| self.byte_at((a + i) as u64))
    }

    /// Every stored value mentions only symbols below `n`.
    pub open spec fn below(self, n: nat) -> bool {
        forall|a: u64| self.bytes@.contains_key(a) ==> #[trigger] self.bytes@[a].below(n)
    }

    /// The heap is aligned and every live block lies below `heap_next`.
    pub open spec fn wf(self) -> bool {
        &&& HEAP_START <= self.heap_next <= HEAP_END
        &&& self.heap_next % HEAP_ALIGN == 0
        &&& forall|a: u64| #[trigger]
            self.blocks@.contains_key(a) ==> HEAP_START <= a && a < self.heap_next && a
                + self.blocks@[a] <= self.heap_next
    }

    /// An empty memory with an empty heap.
    pub fn new() -> (m: Memory)
        ensures
            m.wf(),
            m.bytes@ == Map::<u64, Value>::empty(),
            m.blocks@ == Map::<u64, u64>::empty(),
            m.heap_next == HEAP_START,
    {
        Memory { bytes: HashMap::new(), heap_next: HEAP_START, blocks: HashMap::new() }
    }

    /// The byte at `a`.
    pub fn read_byte(&self, a: u64) -> (v: Value)
        ensures
            v == self.byte_at(a),
    {
        match self.bytes.get(&a) {
            Some(v) => v.duplicate(),
            None => Value::Concrete(0),
        }
    }

    /// Writes one byte.
    pub fn write_byte(&mut self, a: u64, v: Value)
        ensures
            final(self).bytes@ == old(self).bytes@.insert(a, v),
            final(self).heap_next == old(self).heap_next,
            final(self).blocks@ == old(self).blocks@,
    {
        self.bytes.insert(a, v);
    }

    /// The `n` bytes from `addr` on.
    pub fn read_bytes(&self, addr: u64, n: u64) -> (r: Vec<Value>)
        requires
            in_range(addr, n as int),
        ensures
            r@ == self.region(addr, n as int),
    {
        let mut r: Vec<Value> = Vec::new();
        let mut i: u64 = 0;
        while i < n
            invariant
                i <= n,
                in_range(addr, n as int),
                r@ == self.region(addr, i as int),
            decreases n - i,
        {
            let b = self.read_byte(addr + i);
            r.push(b);
            i = i + 1;
            assert(r@ =~= self.region(addr, i as int));
        }
        r
    }

    /// Writes the first `min(len, data.len())` values of `data` from `addr` on.
    pub fn write_bytes(&mut self, addr: u64, data: &Vec<Value>, len: u64)
        requires
            in_range(addr, if len < data.len() { len as int } else { data.len() as int }),
        ensures
            final(self).bytes@ == store(
                old(self).bytes@,
                addr,
                data@.take(if len < data.len() { len as int } else { data.len() as int }),
            ),
            final(self).heap_next == old(self).heap_next,
            final(self).blocks@ == old(self).blocks@,
            forall|n: nat|
                old(self).below(n) && all_below(data@, n) ==> #[trigger] final(self).below(n),
    {
        let n: usize = if len < data.len() as u64 {
            len as usize
        } else {
            data.len()
        };
        let ghost m0 = self.bytes@;
        let mut i: usize = 0;
        assert(self.bytes@ =~= store(m0, addr, data@.take(0)));
        while i < n
            invariant
                i <= n,
                n <= data.len(),
                in_range(addr, n as int),
                self.bytes@ == store(m0, addr, data@.take(i as int)),
                self.heap_next == old(self).heap_next,
                self.blocks@ == old(self).blocks@,
            decreases n - i,
        {
            let v = data[i].duplicate();
            self.bytes.insert(addr + i as u64, v);
            i = i + 1;
            assert(self.bytes@ =~= store(m0, addr, data@.take(i as int)));
        }
        assert(data@.take(n as int) == data@.take(
            if len < data.len() { len as int } else { data.len() as int },
        ));
        assert forall|k: nat| old(self).below(k) && all_below(data@, k) implies #[trigger] self.below(
            k,
        ) by {
            lemma_store_below(m0, addr, data@.take(n as int), k);
        }
    }

    /// The bytes from `addr` on after `data` is written there where only the
    /// first `len` of them count, `len` being symbolic: byte `i` becomes
    /// `data[i]` where `i < len` and stays as it was elsewhere.
    pub open spec fn guarded(self, addr: u64, data: Seq<Value>, len: Value) -> Seq<Value> {
        Seq::new(
            data.len(),
            |i: int|
                crate::value::select(
                    crate::value::combine(BinOp::Ult, Value::Concrete(i as u64), len),
                    data[i],
                    self.byte_at((addr + i) as u64),
                ),
        )
    }

    /// Writes `data` from `addr` on, each byte `i` guarded by `i < len`.
    pub fn write_guarded(&mut self, addr: u64, data: &Vec<Value>, len: &Value)
        requires
            in_range(addr, data.len() as int),
        ensures
            final(self).bytes@ == store(
                old(self).bytes@,
                addr,
                old(self).guarded(addr, data@, *len),
            ),
            final(self).heap_next == old(self).heap_next,
            final(self).blocks@ == old(self).blocks@,
            forall|n: nat|
                old(self).below(n) && all_below(data@, n) && len.below(n)
                    ==> #[trigger] final(self).below(n),
    {
        let ghost g = self.guarded(addr, data@, *len);
        let mut out: Vec<Value> = Vec::new();
        let mut i: usize = 0;
        while i < data.len()
            invariant
                i <= data.len(),
                in_range(addr, data.len() as int),
                g == self.guarded(addr, data@, *len),
                out@ == g.take(i as int),
                forall|n: nat|
                    self.below(n) && all_below(data@, n) && len.below(n) ==> #[trigger] all_below(
                        out@,
                        n,
                    ),
            decreases data.len() - i,
        {
            let a = addr + i as u64;
            let old_byte = self.read_byte(a);
            let c = Value::binary(BinOp::Ult, Value::Concrete(i as u64), len.duplicate());
            let v = Value::ite(c, data[i].duplicate(), old_byte);
            proof {
                assert forall|n: nat|
                    self.below(n) && all_below(data@, n) && len.below(n) implies #[trigger] all_below(
                    out@.push(v),
                    n,
                ) by {
                    assert(all_below(out@, n));
                    assert(data@[i as int].below(n));
                    assert(old_byte.below(n));
                    assert(out@.push(v)[i as int] == v);
                    assert forall|k: int| 0 <= k < out@.push(v).len() implies #[trigger] out@.push(v)[k].below(n) by {
                        if k < i {
                            assert(out@.push(v)[k] == out@[k]);
                        }
                    }
                }
            }
            out.push(v);
            i = i + 1;
            assert(out@ =~= g.take(i as int));
        }
        assert(g.take(data.len() as int) =~= g);
        self.write_bytes(addr, &out, out.len() as u64);
        assert(out@.take(out.len() as int) =~= out@);
    }

    /// Copies `n` bytes from `src` to `dst`, reading all of them first.
    pub fn memmove(&mut self, dst: u64, src: u64, n: u64)
        requires
            in_range(dst, n as int),
            in_range(src, n as int),
        ensures
            final(self).bytes@ == store(old(self).bytes@, dst, old(self).region(src, n as int)),
            final(self).heap_next == old(self).heap_next,
            final(self).blocks@ == old(self).blocks@,
            forall|k: nat| old(self).below(k) ==> #[trigger] final(self).below(k),
    {
        proof {
            assert forall|k: nat| old(self).below(k) implies all_below(self.region(src, n as int), k) by {
                lemma_region_below(*self, src, n as int, k);
            }
        }
        let data = self.read_bytes(src, n);
        self.write_bytes(dst, &data, n);
        assert(data@.take(n as int) =~= data@);
    }

    /// The length of the C string at `addr`, looking at no more than `max`
    /// bytes: the index of its first zero byte, or `max`. Over symbolic bytes
    /// it is an expression that selects the first byte that is zero.
    pub fn strlen(&self, addr: u64, max: u64) -> (r: Value)
        requires
            in_range(addr, max as int),
        ensures
            forall|env: spec_fn(u64) -> u64| #[trigger]
                r.eval(env) == zero_scan(self.region(addr, max as int), env),
            r.is_concrete() <==> settled(self.region(addr, max as int)),
            r.bound() == known_end(self.region(addr, max as int)),
            r.floor() == sure_len(self.region(addr, max as int)),
            forall|k: nat| self.below(k) ==> #[trigger] r.below(k),
    {
        let ghost s = self.region(addr, max as int);
        let mut r = Value::Concrete(max);
        let mut i: u64 = max;
        assert(s.subrange(max as int, max as int) =~= Seq::<Value>::empty());
        while i > 0
            invariant
                i <= max,
                in_range(addr, max as int),
                s == self.region(addr, max as int),
                forall|env: spec_fn(u64) -> u64| #[trigger]
                    r.eval(env) == i + zero_scan(s.subrange(i as int, max as int), env),
                r.is_concrete() <==> settled(s.subrange(i as int, max as int)),
                r.bound() == i + known_end(s.subrange(i as int, max as int)),
                r.floor() == i + sure_len(s.subrange(i as int, max as int)),
                forall|k: nat| self.below(k) ==> #[trigger] r.below(k),
            decreases i,
        {
            i = i - 1;
            let b = self.read_byte(addr + i);
            let is_zero = Value::binary(BinOp::Eq, b, Value::Concrete(0));
            let ghost prev = r;
            let ghost iz = is_zero;
            r = Value::ite(is_zero, Value::Concrete(i), r);
            proof {
                let env0 = |x: u64| 0u64;
                assert(iz.eval(env0) == iz.word() || !iz.is_concrete());
                assert(b.eval(env0) == b.word() || !b.is_concrete());
                let t = s.subrange(i as int, max as int);
                assert(t.drop_first() =~= s.subrange(i + 1, max as int));
                assert(t[0] == s[i as int]);
                assert forall|env: spec_fn(u64) -> u64| #[trigger]
                    r.eval(env) == i + zero_scan(t, env) by {
                    assert(prev.eval(env) == (i + 1) + zero_scan(
                        s.subrange(i + 1, max as int),
                        env,
                    ));
                }
                assert(known_end(t) == (if t[0] == Value::Concrete(0) {
                    0
                } else {
                    1 + known_end(s.subrange(i + 1, max as int))
                }));
                let rest = s.subrange(i + 1, max as int);
                assert(prev.bound() == (i + 1) + known_end(rest));
                assert(prev.floor() == (i + 1) + sure_len(rest));
                assert(sure_len(t) == (if t[0].is_concrete() && t[0].word() != 0 {
                    1 + sure_len(rest)
                } else {
                    0
                }));
                if b.is_concrete() {
                    assert(iz == Value::Concrete(flag(b.word() == 0)));
                    if b.word() == 0 {
                        assert(b == Value::Concrete(0));
                        assert(r == Value::Concrete(i));
                    } else {
                        assert(b != Value::Concrete(0));
                        assert(r == prev);
                    }
                } else {
                    assert(!iz.is_concrete());
                    assert(r == Value::Ite(Box::new(iz), Box::new(Value::Concrete(i)), Box::new(prev)));
                    assert(Value::Concrete(i).bound() == i);
                    assert(r.bound() == prev.bound());
                    assert(Value::Concrete(i).floor() == i);
                    assert(r.floor() == i);
                }
            }
        }
        assert(s.subrange(0, max as int) =~= s);
        r
    }

    /// The `w` bytes at `addr` read as one little-endian word.
    pub fn read_word(&self, addr: u64, w: u64) -> (r: Value)
        requires
            1 <= w <= 8,
            in_range(addr, w as int),
        ensures
            forall|env: spec_fn(u64) -> u64| #[trigger]
                r.eval(env) == pack(self.region(addr, w as int), env),
            r.is_concrete() <==> all_concrete(self.region(addr, w as int)),
    {
        let ghost s = self.region(addr, w as int);
        let mut j: u64 = w - 1;
        let mut acc = self.read_byte(addr + j);
        proof {
            let t = s.subrange(j as int, w as int);
            assert(t =~= seq![s[j as int]]);
            assert(t[0] == s[j as int]);
            assert(t.len() == 1);
            assert(all_concrete(t) <==> s[j as int].is_concrete());
        }
        while j > 0
            invariant
                j < w,
                w <= 8,
                in_range(addr, w as int),
                s == self.region(addr, w as int),
                forall|env: spec_fn(u64) -> u64| #[trigger]
                    acc.eval(env) == pack(s.subrange(j as int, w as int), env),
                acc.is_concrete() <==> all_concrete(s.subrange(j as int, w as int)),
            decreases j,
        {
            j = j - 1;
            let b = self.read_byte(addr + j);
            let shifted = Value::binary(BinOp::Mul, acc, Value::Concrete(256));
            acc = Value::binary(BinOp::Add, b, shifted);
            proof {
                let t = s.subrange(j as int, w as int);
                assert(t.drop_first() =~= s.subrange(j + 1, w as int));
                assert(t[0] == s[j as int]);
                assert(all_concrete(t) <==> (t[0].is_concrete() && all_concrete(t.drop_first())))
                    by {
                    if all_concrete(t.drop_first()) && t[0].is_concrete() {
                        assert forall|k: int| 0 <= k < t.len() implies #[trigger] t[k].is_concrete() by {
                            if k > 0 {
                                assert(t[k] == t.drop_first()[k - 1]);
                            }
                        }
                    }
                    if all_concrete(t) {
                        assert forall|k: int| 0 <= k < t.drop_first().len() implies
                            #[trigger] t.drop_first()[k].is_concrete() by {
                            assert(t[k + 1] == t.drop_first()[k]);
                        }
                    }
                }
            }
        }
        assert(s.subrange(0, w as int) =~= s);
        acc
    }

    /// What `search` gives under `env` when the needle is `x`.
    pub open spec fn search_spec(
        self,
        addr: u64,
        x: u64,
        w: u64,
        len: u64,
        reverse: bool,
        env: spec_fn(u64) -> u64,
    ) -> u64 {
        found_address(
            addr,
            if reverse {
                find_last(self.region(addr, len as int), x & word_mask(w), w as int, positions(len, w) as int, env)
            } else {
                find_first(self.region(addr, len as int), x & word_mask(w), w as int, 0, positions(len, w) as int, env)
            },
        )
    }

    /// Looks for `needle` (taken modulo 256^w) among the `w`-byte words that
    /// start at `addr + p` and end within `len` bytes of `addr`. Gives the
    /// address of the first match (the last one when `reverse`), or 0.
    pub fn search(&self, addr: u64, needle: Value, w: u64, len: u64, reverse: bool) -> (r: Value)
        requires
            1 <= w <= 8,
            in_range(addr, len as int),
        ensures
            forall|env: spec_fn(u64) -> u64| #[trigger]
                r.eval(env) == self.search_spec(addr, needle.eval(env), w, len, reverse, env),
            needle.is_concrete() && all_concrete(self.region(addr, len as int)) ==> r.is_concrete(),
    {
        let ghost s = self.region(addr, len as int);
        let count: u64 = if len >= w {
            len - w + 1
        } else {
            0
        };
        let mask = Value::Concrete(mask_for(w));
        let m = Value::binary(BinOp::And, needle, mask);
        let mut r = Value::Concrete(0);
        if !reverse {
            let mut k: u64 = count;
            while k > 0
                invariant
                    k <= count,
                    count == positions(len, w),
                    1 <= w <= 8,
                    in_range(addr, len as int),
                    s == self.region(addr, len as int),
                    m.is_concrete() && all_concrete(s) ==> r.is_concrete(),
                    forall|env: spec_fn(u64) -> u64| #[trigger]
                        r.eval(env) == found_address(
                            addr,
                            find_first(s, m.eval(env), w as int, k as int, count as int, env),
                        ),
                decreases k,
            {
                k = k - 1;
                let word = self.read_word(addr + k, w);
                proof {
                    assert(self.region((addr + k) as u64, w as int) =~= s.subrange(
                        k as int,
                        k + w,
                    ));
                    if all_concrete(s) {
                        let t = s.subrange(k as int, k + w);
                        assert forall|i: int| 0 <= i < t.len() implies #[trigger] t[i].is_concrete() by {
                            assert(t[i] == s[k + i]);
                        }
                    }
                }
                let hit = Value::binary(BinOp::Eq, word, m.duplicate());
                r = Value::ite(hit, Value::Concrete(addr + k), r);
            }
        } else {
            let mut k: u64 = 0;
            while k < count
                invariant
                    k <= count,
                    count == positions(len, w),
                    1 <= w <= 8,
                    in_range(addr, len as int),
                    s == self.region(addr, len as int),
                    m.is_concrete() && all_concrete(s) ==> r.is_concrete(),
                    forall|env: spec_fn(u64) -> u64| #[trigger]
                        r.eval(env) == found_address(
                            addr,
                            find_last(s, m.eval(env), w as int, k as int, env),
                        ),
                decreases count - k,
            {
                let word = self.read_word(addr + k, w);
                proof {
                    assert(self.region((addr + k) as u64, w as int) =~= s.subrange(
                        k as int,
                        k + w,
                    ));
                    if all_concrete(s) {
                        let t = s.subrange(k as int, k + w);
                        assert forall|i: int| 0 <= i < t.len() implies #[trigger] t[i].is_concrete() by {
                            assert(t[i] == s[k + i]);
                        }
                    }
                }
                let hit = Value::binary(BinOp::Eq, word, m.duplicate());
                r = Value::ite(hit, Value::Concrete(addr + k), r);
                k = k + 1;
            }
        }
        r
    }

    /// Looks for the bytes of `needle` at the positions `p` from `addr` on
    /// where the needle ends within `len` bytes of `addr`, `len` being a
    /// value that never exceeds `bound`. Gives the address of the first
    /// match, or 0; under each assignment the positions are those that `len`
    /// allows there.
    pub fn search_bytes(&self, addr: u64, needle: &Vec<Value>, len: &Value, bound: u64) -> (r: Value)
        requires
            1 <= needle.len(),
            in_range(addr, bound as int),
            forall|env: spec_fn(u64) -> u64| #[trigger] len.eval(env) <= bound,
        ensures
            forall|env: spec_fn(u64) -> u64| #[trigger]
                r.eval(env) == found_address(
                    addr,
                    find_seq(
                        self.region(addr, bound as int),
                        needle@,
                        0,
                        positions(len.eval(env), needle.len() as u64) as int,
                        env,
                    ),
                ),
            len.is_concrete() && all_concrete(needle@) && all_concrete(self.region(addr, bound as int))
                ==> r.is_concrete(),
    {
        let ghost s = self.region(addr, bound as int);
        let w = needle.len() as u64;
        let count: u64 = if bound >= w {
            bound - w + 1
        } else {
            0
        };
        let mut r = Value::Concrete(0);
        let mut k: u64 = count;
        while k > 0
            invariant
                k <= count,
                count == positions(bound, w),
                w == needle.len(),
                1 <= w,
                in_range(addr, bound as int),
                s == self.region(addr, bound as int),
                forall|env: spec_fn(u64) -> u64| #[trigger] len.eval(env) <= bound,
                len.is_concrete() && all_concrete(needle@) && all_concrete(s) ==> r.is_concrete(),
                forall|env: spec_fn(u64) -> u64| #[trigger]
                    r.eval(env) == found_address(
                        addr,
                        find_seq(s, needle@, k as int, positions(len.eval(env), w) as int, env),
                    ),
            decreases k,
        {
            k = k - 1;
            // `hit` is 1 where every byte of the needle matches from `addr + k`
            let mut hit = Value::Concrete(1);
            let mut j: usize = 0;
            while j < needle.len()
                invariant
                    j <= needle.len(),
                    k < count,
                    count == positions(bound, w),
                    w == needle.len(),
                    in_range(addr, bound as int),
                    s == self.region(addr, bound as int),
                    all_concrete(needle@) && all_concrete(s) ==> hit.is_concrete(),
                    forall|env: spec_fn(u64) -> u64| #[trigger]
                        hit.eval(env) == flag(
                            forall|i: int|
                                0 <= i < j ==> #[trigger] (s[k + i].eval(env) & 0xff) == (
                                needle@[i].eval(env) & 0xff),
                        ),
                decreases needle.len() - j,
            {
                let b = self.read_byte(addr + k + j as u64);
                assert(b == s[k + j]);
                let lhs = Value::binary(BinOp::And, b, Value::Concrete(0xff));
                let rhs = Value::binary(BinOp::And, needle[j].duplicate(), Value::Concrete(0xff));
                let e = Value::binary(BinOp::Eq, lhs, rhs);
                let ghost prev = hit;
                let ghost ge = e;
                hit = Value::ite(e, hit, Value::Concrete(0));
                proof {
                    assert forall|env: spec_fn(u64) -> u64| #[trigger]
                        hit.eval(env) == flag(
                            forall|i: int|
                                0 <= i < j + 1 ==> #[trigger] (s[k + i].eval(env) & 0xff) == (
                                needle@[i].eval(env) & 0xff),
                        ) by {
                        assert(ge.eval(env) == flag(
                            (s[k + j].eval(env) & 0xff) == (needle@[j as int].eval(env) & 0xff),
                        ));
                        assert(prev.eval(env) == flag(
                            forall|i: int|
                                0 <= i < j ==> #[trigger] (s[k + i].eval(env) & 0xff) == (
                                needle@[i].eval(env) & 0xff),
                        ));
                    }
                    if all_concrete(needle@) && all_concrete(s) {
                        assert(s[k + j].is_concrete());
                        assert(needle@[j as int].is_concrete());
                    }
                }
                j = j + 1;
            }
            let inside = Value::binary(BinOp::Ule, Value::Concrete(k + w), len.duplicate());
            let ghost gin = inside;
            let ghost ghit = hit;
            let both = Value::ite(inside, hit, Value::Concrete(0));
            let ghost gboth = both;
            let ghost prev = r;
            r = Value::ite(both, Value::Concrete(addr + k), r);
            proof {
                assert forall|env: spec_fn(u64) -> u64| #[trigger]
                    r.eval(env) == found_address(
                        addr,
                        find_seq(s, needle@, k as int, positions(len.eval(env), w) as int, env),
                    ) by {
                    let c = positions(len.eval(env), w) as int;
                    assert(gin.eval(env) == flag(k + w <= len.eval(env)));
                    assert(gboth.eval(env) == (if gin.eval(env) != 0 {
                        ghit.eval(env)
                    } else {
                        0
                    }));
                    assert(prev.eval(env) == found_address(
                        addr,
                        find_seq(s, needle@, k + 1, c, env),
                    ));
                    assert((k < c) == (k + w <= len.eval(env)));
                    assert(ghit.eval(env) != 0 <==> bytes_match(s, needle@, k as int, env));
                }
            }
        }
        r
    }

    /// What `search_guarded` gives under `env`: a search over the bytes from
    /// `addr` on, with the positions that the length `n` allows.
    pub open spec fn guarded_search_spec(
        self,
        addr: u64,
        x: u64,
        w: u64,
        bound: u64,
        n: u64,
        reverse: bool,
        env: spec_fn(u64) -> u64,
    ) -> u64 {
        found_address(
            addr,
            if reverse {
                find_last(self.region(addr, bound as int), x & word_mask(w), w as int, positions(n, w) as int, env)
            } else {
                find_first(self.region(addr, bound as int), x & word_mask(w), w as int, 0, positions(n, w) as int, env)
            },
        )
    }

    /// Searches as `search` does over a symbolic length `len` that never
    /// exceeds `bound`: under every assignment, the positions are those
    /// that `len` allows there.
    pub fn search_guarded(
        &self,
        addr: u64,
        needle: Value,
        w: u64,
        len: &Value,
        bound: u64,
        reverse: bool,
    ) -> (r: Value)
        requires
            1 <= w <= 8,
            in_range(addr, bound as int),
            forall|env: spec_fn(u64) -> u64| #[trigger] len.eval(env) <= bound,
        ensures
            forall|env: spec_fn(u64) -> u64| #[trigger]
                r.eval(env) == self.guarded_search_spec(
                    addr,
                    needle.eval(env),
                    w,
                    bound,
                    len.eval(env),
                    reverse,
                    env,
                ),
    {
        let ghost s = self.region(addr, bound as int);
        let count: u64 = if bound >= w {
            bound - w + 1
        } else {
            0
        };
        let mask = Value::Concrete(mask_for(w));
        let m = Value::binary(BinOp::And, needle, mask);
        let mut r = Value::Concrete(0);
        if !reverse {
            let mut k: u64 = count;
            while k > 0
                invariant
                    k <= count,
                    count == positions(bound, w),
                    1 <= w <= 8,
                    in_range(addr, bound as int),
                    s == self.region(addr, bound as int),
                    forall|env: spec_fn(u64) -> u64| #[trigger] len.eval(env) <= bound,
                    forall|env: spec_fn(u64) -> u64| #[trigger]
                        r.eval(env) == found_address(
                            addr,
                            find_first(
                                s,
                                m.eval(env),
                                w as int,
                                k as int,
                                positions(len.eval(env), w) as int,
                                env,
                            ),
                        ),
                decreases k,
            {
                k = k - 1;
                let word = self.read_word(addr + k, w);
                proof {
                    assert(self.region((addr + k) as u64, w as int) =~= s.subrange(k as int, k + w));
                }
                let ghost gword = word;
                let hit = Value::binary(BinOp::Eq, word, m.duplicate());
                let ghost ghit = hit;
                let inside = Value::binary(BinOp::Ule, Value::Concrete(k + w), len.duplicate());
                let ghost gin = inside;
                let both = Value::ite(inside, hit, Value::Concrete(0));
                let ghost gboth = both;
                let ghost prev = r;
                r = Value::ite(both, Value::Concrete(addr + k), r);
                proof {
                    assert forall|env: spec_fn(u64) -> u64| #[trigger]
                        r.eval(env) == found_address(
                            addr,
                            find_first(
                                s,
                                m.eval(env),
                                w as int,
                                k as int,
                                positions(len.eval(env), w) as int,
                                env,
                            ),
                        ) by {
                        let c = positions(len.eval(env), w) as int;
                        assert(gin.eval(env) == flag(k + w <= len.eval(env)));
                        assert(ghit.eval(env) == flag(gword.eval(env) == m.eval(env)));
                        assert(gword.eval(env) == pack(s.subrange(k as int, k + w), env));
                        assert(prev.eval(env) == found_address(
                            addr,
                            find_first(s, m.eval(env), w as int, k + 1, c, env),
                        ));
                        assert((k < c) == (k + w <= len.eval(env)));
                    }
                }
            }
        } else {
            let mut k: u64 = 0;
            while k < count
                invariant
                    k <= count,
                    count == positions(bound, w),
                    1 <= w <= 8,
                    in_range(addr, bound as int),
                    s == self.region(addr, bound as int),
                    forall|env: spec_fn(u64) -> u64| #[trigger] len.eval(env) <= bound,
                    forall|env: spec_fn(u64) -> u64| #[trigger]
                        r.eval(env) == found_address(
                            addr,
                            find_last(
                                s,
                                m.eval(env),
                                w as int,
                                if k < positions(len.eval(env), w) {
                                    k as int
                                } else {
                                    positions(len.eval(env), w) as int
                                },
                                env,
                            ),
                        ),
                decreases count - k,
            {
                let word = self.read_word(addr + k, w);
                proof {
                    assert(self.region((addr + k) as u64, w as int) =~= s.subrange(k as int, k + w));
                }
                let ghost gword = word;
                let hit = Value::binary(BinOp::Eq, word, m.duplicate());
                let ghost ghit = hit;
                let inside = Value::binary(BinOp::Ule, Value::Concrete(k + w), len.duplicate());
                let ghost gin = inside;
                let both = Value::ite(inside, hit, Value::Concrete(0));
                let ghost gboth = both;
                let ghost prev = r;
                r = Value::ite(both, Value::Concrete(addr + k), r);
                proof {
                    assert forall|env: spec_fn(u64) -> u64| #[trigger]
                        r.eval(env) == found_address(
                            addr,
                            find_last(
                                s,
                                m.eval(env),
                                w as int,
                                if k + 1 < positions(len.eval(env), w) {
                                    k + 1
                                } else {
                                    positions(len.eval(env), w) as int
                                },
                                env,
                            ),
                        ) by {
                        let c = positions(len.eval(env), w) as int;
                        assert(gin.eval(env) == flag(k + w <= len.eval(env)));
                        assert(ghit.eval(env) == flag(gword.eval(env) == m.eval(env)));
                        assert(gword.eval(env) == pack(s.subrange(k as int, k + w), env));
                        assert(prev.eval(env) == found_address(
                            addr,
                            find_last(s, m.eval(env), w as int, if k < c { k as int } else { c }, env),
                        ));
                        assert((k < c) == (k + w <= len.eval(env)));
                    }
                }
                k = k + 1;
            }
            proof {
                assert forall|env: spec_fn(u64) -> u64|
                    positions(#[trigger] len.eval(env), w) <= count by {
                }
            }
        }
        r
    }

    /// Compares `n` bytes at `a` with `n` bytes at `b`: the first pair that
    /// differs gives the difference of its bytes (wrapping), equal ranges 0.
    pub fn compare(&self, a: u64, b: u64, n: u64) -> (r: Value)
        requires
            in_range(a, n as int),
            in_range(b, n as int),
        ensures
            forall|env: spec_fn(u64) -> u64| #[trigger]
                r.eval(env) == diff_scan(self.region(a, n as int), self.region(b, n as int), env),
            all_concrete(self.region(a, n as int)) && all_concrete(self.region(b, n as int))
                ==> r.is_concrete(),
    {
        let ghost s = self.region(a, n as int);
        let ghost t = self.region(b, n as int);
        let mut r = Value::Concrete(0);
        let mut i: u64 = n;
        assert(s.subrange(n as int, n as int) =~= Seq::<Value>::empty());
        while i > 0
            invariant
                i <= n,
                in_range(a, n as int),
                in_range(b, n as int),
                s == self.region(a, n as int),
                t == self.region(b, n as int),
                all_concrete(s) && all_concrete(t) ==> r.is_concrete(),
                forall|env: spec_fn(u64) -> u64| #[trigger]
                    r.eval(env) == diff_scan(
                        s.subrange(i as int, n as int),
                        t.subrange(i as int, n as int),
                        env,
                    ),
            decreases i,
        {
            i = i - 1;
            let x = self.read_byte(a + i);
            let y = self.read_byte(b + i);
            assert(x == s[i as int] && y == t[i as int]);
            let same = Value::binary(BinOp::Eq, x.duplicate(), y.duplicate());
            let d = Value::binary(BinOp::Sub, x, y);
            r = Value::ite(same, r, d);
            proof {
                let s1 = s.subrange(i as int, n as int);
                let t1 = t.subrange(i as int, n as int);
                assert(s1.drop_first() =~= s.subrange(i + 1, n as int));
                assert(t1.drop_first() =~= t.subrange(i + 1, n as int));
                assert(s1[0] == s[i as int]);
                assert(t1[0] == t[i as int]);
            }
        }
        assert(s.subrange(0, n as int) =~= s);
        assert(t.subrange(0, n as int) =~= t);
        r
    }

    /// Compares as `compare` does over a symbolic count `n` that never
    /// exceeds `bound`: under every assignment the result is that of
    /// comparing as many bytes as `n` takes there.
    pub fn compare_guarded(&self, a: u64, b: u64, n: &Value, bound: u64) -> (r: Value)
        requires
            in_range(a, bound as int),
            in_range(b, bound as int),
            forall|env: spec_fn(u64) -> u64| #[trigger] n.eval(env) <= bound,
        ensures
            forall|env: spec_fn(u64) -> u64| #[trigger]
                r.eval(env) == diff_scan(
                    self.region(a, n.eval(env) as int),
                    self.region(b, n.eval(env) as int),
                    env,
                ),
    {
        let ghost s = self.region(a, bound as int);
        let ghost t = self.region(b, bound as int);
        let mut r = Value::Concrete(0);
        let mut i: u64 = bound;
        while i > 0
            invariant
                i <= bound,
                in_range(a, bound as int),
                in_range(b, bound as int),
                s == self.region(a, bound as int),
                t == self.region(b, bound as int),
                forall|env: spec_fn(u64) -> u64| #[trigger] n.eval(env) <= bound,
                forall|env: spec_fn(u64) -> u64| #[trigger]
                    r.eval(env) == (if i < n.eval(env) {
                        diff_scan(
                            s.subrange(i as int, n.eval(env) as int),
                            t.subrange(i as int, n.eval(env) as int),
                            env,
                        )
                    } else {
                        0
                    }),
            decreases i,
        {
            i = i - 1;
            let x = self.read_byte(a + i);
            let y = self.read_byte(b + i);
            assert(x == s[i as int] && y == t[i as int]);
            let same = Value::binary(BinOp::Eq, x.duplicate(), y.duplicate());
            let d = Value::binary(BinOp::Sub, x, y);
            let ghost prev = r;
            let ghost gsame = same;
            let ghost gd = d;
            let step = Value::ite(same, r, d);
            let ghost gstep = step;
            let inside = Value::binary(BinOp::Ult, Value::Concrete(i), n.duplicate());
            let ghost ginside = inside;
            r = Value::ite(inside, step, Value::Concrete(0));
            proof {
                assert forall|env: spec_fn(u64) -> u64| #[trigger]
                    r.eval(env) == (if i < n.eval(env) {
                        diff_scan(
                            s.subrange(i as int, n.eval(env) as int),
                            t.subrange(i as int, n.eval(env) as int),
                            env,
                        )
                    } else {
                        0
                    }) by {
                    let k = n.eval(env);
                    assert(ginside.eval(env) == flag(i < k));
                    assert(r.eval(env) == (if ginside.eval(env) != 0 {
                        gstep.eval(env)
                    } else {
                        0
                    }));
                    assert(gstep.eval(env) == (if gsame.eval(env) != 0 {
                        prev.eval(env)
                    } else {
                        gd.eval(env)
                    }));
                    assert(gsame.eval(env) == flag(x.eval(env) == y.eval(env)));
                    assert(gd.eval(env) == wsub(x.eval(env), y.eval(env)));
                    assert(prev.eval(env) == (if i + 1 < k {
                        diff_scan(
                            s.subrange(i + 1, k as int),
                            t.subrange(i + 1, k as int),
                            env,
                        )
                    } else {
                        0
                    }));
                    if i < k {
                        let s1 = s.subrange(i as int, k as int);
                        let t1 = t.subrange(i as int, k as int);
                        assert(s1.drop_first() =~= s.subrange(i + 1, k as int));
                        assert(t1.drop_first() =~= t.subrange(i + 1, k as int));
                        assert(s1[0] == s[i as int]);
                        assert(t1[0] == t[i as int]);
                        assert(diff_scan(s1, t1, env) == (if x.eval(env) == y.eval(env) {
                            diff_scan(s1.drop_first(), t1.drop_first(), env)
                        } else {
                            wsub(x.eval(env), y.eval(env))
                        }));
                        if i + 1 == k {
                            assert(s1.drop_first().len() == 0);
                            assert(diff_scan(s1.drop_first(), t1.drop_first(), env) == 0);
                        }
                        assert(ginside.eval(env) != 0);
                    } else {
                        assert(ginside.eval(env) == 0);
                    }
                }
            }
        }
        assert forall|env: spec_fn(u64) -> u64| #[trigger]
            r.eval(env) == diff_scan(
                self.region(a, n.eval(env) as int),
                self.region(b, n.eval(env) as int),
                env,
            ) by {
            let k = n.eval(env);
            assert(s.subrange(0, k as int) =~= self.region(a, k as int));
            assert(t.subrange(0, k as int) =~= self.region(b, k as int));
        }
        r
    }

    /// The `n` bytes at `addr`, each taken modulo 256, when all are concrete.
    pub fn read_string(&self, addr: u64, n: u64) -> (r: Vec<u8>)
        requires
            in_range(addr, n as int),
            all_concrete(self.region(addr, n as int)),
        ensures
            r@ == byte_string(self.region(addr, n as int)),
    {
        let ghost s = self.region(addr, n as int);
        let mut r: Vec<u8> = Vec::new();
        let mut i: u64 = 0;
        while i < n
            invariant
                i <= n,
                in_range(addr, n as int),
                s == self.region(addr, n as int),
                all_concrete(s),
                r@ == byte_string(s.take(i as int)),
            decreases n - i,
        {
            let b = self.read_byte(addr + i);
            assert(s[i as int] == b);
            assert(s[i as int].is_concrete());
            let c: u64 = match b {
                Value::Concrete(c) => c,
                _ => 0,
            };
            assert(c == s[i as int].word());
            r.push((c % 256) as u8);
            i = i + 1;
            assert(byte_string(s.take(i as int)) =~= byte_string(s.take(i - 1)).push(
                (c % 256) as u8,
            ));
            assert(r@ =~= byte_string(s.take(i as int)));
        }
        assert(s.take(n as int) =~= s);
        r
    }

    /// The address that a request for `len` bytes gets: the start of the
    /// free heap, or 0 when the block does not fit.
    pub open spec fn next_block(self, len: u64) -> u64 {
        if fits(self.heap_next, len) {
            self.heap_next
        } else {
            0
        }
    }

    /// `after` is this memory once a block of `len` bytes was requested:
    /// the bytes are as they were, and a block that fits is recorded at
    /// `next_block(len)` and the free heap moves past it.
    pub open spec fn allocated(self, after: Memory, len: u64) -> bool {
        &&& after.bytes@ == self.bytes@
        &&& if fits(self.heap_next, len) {
            &&& after.heap_next == self.heap_next + chunk_size(len)
            &&& after.blocks@ == self.blocks@.insert(self.heap_next, len)
        } else {
            &&& after.heap_next == self.heap_next
            &&& after.blocks@ == self.blocks@
        }
    }

    /// Hands out a heap block of `len` bytes: its address, or 0 when the heap
    /// has no room left.
    pub fn allocate(&mut self, len: u64) -> (r: u64)
        requires
            old(self).wf(),
        ensures
            final(self).wf(),
            r == old(self).next_block(len),
            old(self).allocated(*final(self), len),
    {
        let room = HEAP_END - self.heap_next;
        if len > room {
            return 0;
        }
        let chunk: u64 = if len == 0 {
            HEAP_ALIGN
        } else if len % HEAP_ALIGN == 0 {
            len
        } else {
            len + (HEAP_ALIGN - len % HEAP_ALIGN)
        };
        if chunk > room {
            return 0;
        }
        let addr = self.heap_next;
        self.heap_next = addr + chunk;
        self.blocks.insert(addr, len);
        addr
    }

    /// Releases the heap block at `addr`; other addresses are ignored.
    pub fn free(&mut self, addr: u64)
        requires
            old(self).wf(),
        ensures
            final(self).wf(),
            final(self).bytes@ == old(self).bytes@,
            final(self).heap_next == old(self).heap_next,
            final(self).blocks@ == old(self).blocks@.remove(addr),
    {
        self.blocks.remove(&addr);
    }
}

/// Number of `w`-byte words that fit in `len` bytes.
pub open spec fn positions(len: u64, w: u64) -> u64 {
    if len >= w {
        (len - w + 1) as u64
    } else {
        0
    }
}

/// The low `w` bytes of a word set, the others clear.
pub open spec fn word_mask(w: u64) -> u64 {
    if w >= 8 {
        0xffff_ffff_ffff_ffff
    } else {
        ((1u64 << (8 * w) as u64) - 1) as u64
    }
}

/// `word_mask(w)`, for `1 <= w <= 8`.
pub fn mask_for(w: u64) -> (m: u64)
    requires
        1 <= w <= 8,
    ensures
        m == word_mask(w),
{
    let m: u64 = match w {
        1 => 0xff,
        2 => 0xffff,
        3 => 0xff_ffff,
        4 => 0xffff_ffff,
        5 => 0xff_ffff_ffff,
        6 => 0xffff_ffff_ffff,
        7 => 0xff_ffff_ffff_ffff,
        _ => 0xffff_ffff_ffff_ffff,
    };
    assert(w == 1 ==> ((1u64 << 8u64) - 1) as u64 == 0xff) by (bit_vector);
    assert(w == 2 ==> ((1u64 << 16u64) - 1) as u64 == 0xffff) by (bit_vector);
    assert(w == 3 ==> ((1u64 << 24u64) - 1) as u64 == 0xff_ffff) by (bit_vector);
    assert(w == 4 ==> ((1u64 << 32u64) - 1) as u64 == 0xffff_ffff) by (bit_vector);
    assert(w == 5 ==> ((1u64 << 40u64) - 1) as u64 == 0xff_ffff_ffff) by (bit_vector);
    assert(w == 6 ==> ((1u64 << 48u64) - 1) as u64 == 0xffff_ffff_ffff) by (bit_vector);
    assert(w == 7 ==> ((1u64 << 56u64) - 1) as u64 == 0xff_ffff_ffff_ffff) by (bit_vector);
    m
}

/// Every value in `s` is concrete.
pub open spec fn all_concrete(s: Seq<Value>) -> bool {
    forall|i: int| 0 <= i < s.len() ==> #[trigger] s[i].is_concrete()
}

/// The little-endian word that the bytes of `s` form under `env`, with
/// wrapping arithmetic.
pub open spec fn pack(s: Seq<Value>, env: spec_fn(u64) -> u64) -> u64
    decreases s.len(),
{
    if s.len() == 0 {
        0
    } else if s.len() == 1 {
        s[0].eval(env)
    } else {
        wadd(s[0].eval(env), wmul(pack(s.drop_first(), env), 256))
    }
}

/// The first position `p` in `[k, count)` whose `w`-byte word in `s` is `x`.
pub open spec fn find_first(
    s: Seq<Value>,
    x: u64,
    w: int,
    k: int,
    count: int,
    env: spec_fn(u64) -> u64,
) -> Option<int>
    decreases count - k,
{
    if k >= count {
        None
    } else if pack(s.subrange(k, k + w), env) == x {
        Some(k)
    } else {
        find_first(s, x, w, k + 1, count, env)
    }
}

/// The last position `p` in `[0, k)` whose `w`-byte word in `s` is `x`.
pub open spec fn find_last(s: Seq<Value>, x: u64, w: int, k: int, env: spec_fn(u64) -> u64) -> Option<
    int,
>
    decreases k,
{
    if k <= 0 {
        None
    } else if pack(s.subrange(k - 1, k - 1 + w), env) == x {
        Some(k - 1)
    } else {
        find_last(s, x, w, k - 1, env)
    }
}

/// Under `env`, the `needle.len()` bytes of `s` from `p` on have the low
/// bytes of the needle's bytes.
pub open spec fn bytes_match(s: Seq<Value>, needle: Seq<Value>, p: int, env: spec_fn(u64) -> u64) -> bool {
    forall|j: int|
        0 <= j < needle.len() ==> #[trigger] (s[p + j].eval(env) & 0xff) == (needle[j].eval(env) & 0xff)
}

/// The first position `p` in `[k, count)` where `needle` matches in `s`.
pub open spec fn find_seq(
    s: Seq<Value>,
    needle: Seq<Value>,
    k: int,
    count: int,
    env: spec_fn(u64) -> u64,
) -> Option<int>
    decreases count - k,
{
    if k >= count {
        None
    } else if bytes_match(s, needle, k, env) {
        Some(k)
    } else {
        find_seq(s, needle, k + 1, count, env)
    }
}

/// The address of a match at offset `p` from `addr`, or 0 for none.
pub open spec fn found_address(addr: u64, p: Option<int>) -> u64 {
    match p {
        Some(p) => (addr + p) as u64,
        None => 0,
    }
}

/// The result of comparing byte sequences `s` and `t` under `env`.
pub open spec fn diff_scan(s: Seq<Value>, t: Seq<Value>, env: spec_fn(u64) -> u64) -> u64
    decreases s.len(),
{
    if s.len() == 0 || t.len() == 0 {
        0
    } else if s[0].eval(env) == t[0].eval(env) {
        diff_scan(s.drop_first(), t.drop_first(), env)
    } else {
        wsub(s[0].eval(env), t[0].eval(env))
    }
}

/// The concrete bytes of `s`, each modulo 256.
pub open spec fn byte_string(s: Seq<Value>) -> Seq<u8> {
    Seq::new(s.len(), |i: int| (s[i].word() % 256) as u8)
}

/// Bytes the heap sets aside for a block of `len` bytes.
pub open spec fn chunk_size(len: u64) -> int {
    if len == 0 {
        HEAP_ALIGN as int
    } else if len % HEAP_ALIGN == 0 {
        len as int
    } else {
        len + (HEAP_ALIGN - len % HEAP_ALIGN)
    }
}

/// A block of `len` bytes fits in the heap above `next`.
pub open spec fn fits(next: u64, len: u64) -> bool {
    next + chunk_size(len) <= HEAP_END
}

/// Reading back what was just written gives the written bytes.
pub proof fn lemma_read_after_write(m1: Memory, m2: Memory, addr: u64, data: Seq<Value>)
    requires
        in_range(addr, data.len() as int),
        m2.bytes@ == store(m1.bytes@, addr, data),
    ensures
        m2.region(addr, data.len() as int) == data,
{
    assert forall|i: int| 0 <= i < data.len() implies #[trigger] m2.region(
        addr,
        data.len() as int,
    )[i] == data[i] by {
        let a = (addr + i) as u64;
        assert(m2.bytes@.contains_key(a));
    }
    assert(m2.region(addr, data.len() as int) =~= data);
}

/// A write changes no byte outside the range it covers.
pub proof fn lemma_write_frame(m1: Memory, m2: Memory, addr: u64, data: Seq<Value>, a: u64)
    requires
        m2.bytes@ == store(m1.bytes@, addr, data),
        a < addr || a >= addr + data.len(),
    ensures
        m2.byte_at(a) == m1.byte_at(a),
{
}

/// `zero_scan` is the length of the C string: every byte before it is
/// non-zero, and the byte at it (if any) is zero.
pub proof fn lemma_zero_scan_meaning(s: Seq<Value>, env: spec_fn(u64) -> u64)
    ensures
        zero_scan(s, env) <= s.len(),
        forall|i: int| 0 <= i < zero_scan(s, env) ==> #[trigger] s[i].eval(env) != 0,
        zero_scan(s, env) < s.len() ==> s[zero_scan(s, env) as int].eval(env) == 0,
    decreases s.len(),
{
    if s.len() > 0 && s[0].eval(env) != 0 {
        let t = s.drop_first();
        lemma_zero_scan_meaning(t, env);
        assert forall|i: int| 0 <= i < zero_scan(s, env) implies #[trigger] s[i].eval(env) != 0 by {
            if i > 0 {
                assert(s[i] == t[i - 1]);
            }
        }
        if zero_scan(s, env) < s.len() {
            assert(s[zero_scan(s, env) as int] == t[zero_scan(t, env) as int]);
        }
    }
}

/// `find_first` gives the first matching position in `[k, count)`.
pub proof fn lemma_find_first_meaning(
    s: Seq<Value>,
    x: u64,
    w: int,
    k: int,
    count: int,
    env: spec_fn(u64) -> u64,
)
    ensures
        match find_first(s, x, w, k, count, env) {
            Some(p) => k <= p < count && pack(s.subrange(p, p + w), env) == x && forall|q: int|
                k <= q < p ==> #[trigger] pack(s.subrange(q, q + w), env) != x,
            None => forall|q: int| k <= q < count ==> #[trigger] pack(s.subrange(q, q + w), env) != x,
        },
    decreases count - k,
{
    if k < count && pack(s.subrange(k, k + w), env) != x {
        lemma_find_first_meaning(s, x, w, k + 1, count, env);
    }
}

/// `find_last` gives the last matching position in `[0, k)`.
pub proof fn lemma_find_last_meaning(s: Seq<Value>, x: u64, w: int, k: int, env: spec_fn(u64) -> u64)
    ensures
        match find_last(s, x, w, k, env) {
            Some(p) => 0 <= p < k && pack(s.subrange(p, p + w), env) == x && forall|q: int|
                p < q < k ==> #[trigger] pack(s.subrange(q, q + w), env) != x,
            None => forall|q: int| 0 <= q < k ==> #[trigger] pack(s.subrange(q, q + w), env) != x,
        },
    decreases k,
{
    if k > 0 && pack(s.subrange(k - 1, k - 1 + w), env) != x {
        lemma_find_last_meaning(s, x, w, k - 1, env);
    }
}

/// Searching forward and searching backward: both find a match or neither
/// does, the first match comes no later than the last, and they are the
/// same exactly when there is only one match.
pub proof fn lemma_search_directions(s: Seq<Value>, x: u64, w: int, count: int, env: spec_fn(u64) -> u64)
    ensures
        find_first(s, x, w, 0, count, env) is None <==> find_last(s, x, w, count, env) is None,
        match (find_first(s, x, w, 0, count, env), find_last(s, x, w, count, env)) {
            (Some(p), Some(q)) => p <= q && (p == q <==> forall|i: int, j: int|
                0 <= i < count && 0 <= j < count && #[trigger] pack(s.subrange(i, i + w), env) == x
                    && #[trigger] pack(s.subrange(j, j + w), env) == x ==> i == j),
            _ => true,
        },
{
    lemma_find_first_meaning(s, x, w, 0, count, env);
    lemma_find_last_meaning(s, x, w, count, env);
    match (find_first(s, x, w, 0, count, env), find_last(s, x, w, count, env)) {
        (Some(p), Some(q)) => {
            if q < p {
                assert(pack(s.subrange(p, p + w), env) == x);
            }
            if p == q {
                assert forall|i: int, j: int|
                    0 <= i < count && 0 <= j < count && #[trigger] pack(s.subrange(i, i + w), env) == x
                        && #[trigger] pack(s.subrange(j, j + w), env) == x implies i == j by {
                    if i < p {
                        assert(pack(s.subrange(i, i + w), env) != x);
                    }
                    if i > q {
                        assert(pack(s.subrange(i, i + w), env) != x);
                    }
                    if j < p {
                        assert(pack(s.subrange(j, j + w), env) != x);
                    }
                    if j > q {
                        assert(pack(s.subrange(j, j + w), env) != x);
                    }
                }
            } else {
                assert(pack(s.subrange(p, p + w), env) == x);
                assert(pack(s.subrange(q, q + w), env) == x);
            }
        },
        (Some(p), None) => {
            assert(pack(s.subrange(p, p + w), env) == x);
        },
        (None, Some(q)) => {
            assert(pack(s.subrange(q, q + w), env) == x);
        },
        _ => {},
    }
}

/// With a one-byte needle, the byte search is the word search of width 1
/// when the bytes searched and the needle are below 256.
pub proof fn lemma_one_byte_search(
    s: Seq<Value>,
    b: Value,
    x: u64,
    k: int,
    count: int,
    env: spec_fn(u64) -> u64,
)
    requires
        0 <= k,
        count <= s.len(),
        b.eval(env) == x,
        x < 256,
        forall|i: int| 0 <= i < s.len() ==> #[trigger] s[i].eval(env) < 256,
    ensures
        find_seq(s, seq![b], k, count, env) == find_first(s, x, 1, k, count, env),
    decreases count - k,
{
    if k < count {
        let v = s[k].eval(env);
        assert(v & 0xff == v && x & 0xff == x) by (bit_vector)
            requires
                v < 256,
                x < 256,
        ;
        assert(s.subrange(k, k + 1).len() == 1);
        assert(pack(s.subrange(k, k + 1), env) == v);
        assert(bytes_match(s, seq![b], k, env) <==> v == x) by {
            if v == x {
                assert forall|j: int| 0 <= j < seq![b].len() implies #[trigger] (s[k + j].eval(env)
                    & 0xff) == (seq![b][j].eval(env) & 0xff) by {
                    assert(j == 0);
                }
            }
            if bytes_match(s, seq![b], k, env) {
                assert((s[k + 0].eval(env) & 0xff) == (seq![b][0].eval(env) & 0xff));
            }
        }
        lemma_one_byte_search(s, b, x, k + 1, count, env);
    }
}

/// Some byte of `needle` differs, as a low byte, from the byte of `s` as
/// many positions on from `q`.
pub open spec fn differs_at(s: Seq<Value>, needle: Seq<Value>, q: int, env: spec_fn(u64) -> u64) -> bool {
    exists|j: int|
        0 <= j < needle.len() && (s[q + j].eval(env) & 0xff) != (needle[j].eval(env) & 0xff)
}

/// Some byte of `needle` differs, as a low byte, from the byte of `m` as
/// many addresses on from `q`.
pub open spec fn differs_in(m: Memory, needle: Seq<Value>, q: int, env: spec_fn(u64) -> u64) -> bool {
    exists|j: int|
        0 <= j < needle.len() && (m.byte_at((q + j) as u64).eval(env) & 0xff) != (needle[j].eval(
            env,
        ) & 0xff)
}

/// Law of the substring search: the first match `p` is a position where
/// every byte of the needle, as a low byte, equals the haystack byte
/// `needle.len()` positions on, at every earlier position some byte of the
/// needle differs, and there is no match only when some byte differs at
/// every position.
pub proof fn lemma_find_seq_meaning(
    s: Seq<Value>,
    needle: Seq<Value>,
    k: int,
    count: int,
    env: spec_fn(u64) -> u64,
)
    ensures
        match find_seq(s, needle, k, count, env) {
            Some(p) => k <= p < count && (forall|j: int|
                0 <= j < needle.len() ==> #[trigger] (s[p + j].eval(env) & 0xff) == (
                needle[j].eval(env) & 0xff)) && forall|q: int|
                k <= q < p ==> #[trigger] differs_at(s, needle, q, env),
            None => forall|q: int| k <= q < count ==> #[trigger] differs_at(s, needle, q, env),
        },
    decreases count - k,
{
    if k < count {
        if !bytes_match(s, needle, k, env) {
            lemma_find_seq_meaning(s, needle, k + 1, count, env);
            let j = choose|j: int|
                0 <= j < needle.len() && !((s[k + j].eval(env) & 0xff) == (needle[j].eval(env)
                    & 0xff));
            assert((s[k + j].eval(env) & 0xff) != (needle[j].eval(env) & 0xff));
            assert(differs_at(s, needle, k, env));
        }
    }
}

/// Law of the substring search over memory: a non-zero result `r` is an
/// address at which all of the needle's bytes (as low bytes) are found,
/// with the needle ending within `n` bytes of `addr`; at every earlier
/// address some byte differs; and the result is 0 only when at every
/// address where the needle would end within `n` bytes some byte differs.
pub proof fn lemma_search_bytes_result(
    m: Memory,
    addr: u64,
    needle: Seq<Value>,
    bound: u64,
    n: u64,
    env: spec_fn(u64) -> u64,
)
    requires
        0 < addr,
        in_range(addr, bound as int),
        n <= bound,
        1 <= needle.len() <= u64::MAX,
    ensures
        ({
            let r = found_address(
                addr,
                find_seq(m.region(addr, bound as int), needle, 0, positions(n, needle.len() as u64) as int, env),
            );
            &&& r != 0 ==> addr <= r && r + needle.len() <= addr + n && (forall|j: int|
                0 <= j < needle.len() ==> #[trigger] (m.byte_at((r + j) as u64).eval(env) & 0xff) == (
                needle[j].eval(env) & 0xff)) && forall|q: int|
                addr <= q < r ==> #[trigger] differs_in(m, needle, q, env)
            &&& r == 0 ==> forall|q: int|
                addr <= q && q + needle.len() <= addr + n ==> #[trigger] differs_in(m, needle, q, env)
        }),
{
    let s = m.region(addr, bound as int);
    let c = positions(n, needle.len() as u64) as int;
    lemma_find_seq_meaning(s, needle, 0, c, env);
    match find_seq(s, needle, 0, c, env) {
        Some(p) => {
            assert(n >= needle.len() as u64) by {
                if n < needle.len() as u64 {
                    assert(positions(n, needle.len() as u64) == 0);
                }
            }
            assert(c == n - needle.len() + 1);
            let r = (addr + p) as u64;
            assert forall|j: int| 0 <= j < needle.len() implies #[trigger] (m.byte_at((r + j) as u64).eval(
                env,
            ) & 0xff) == (needle[j].eval(env) & 0xff) by {
                assert(needle.len() <= n);
                assert(p + j < n);
                assert(r + j == addr + (p + j));
                assert(s[p + j] == m.byte_at((addr + (p + j)) as u64));
                assert(s[p + j] == m.byte_at((r + j) as u64));
                assert((s[p + j].eval(env) & 0xff) == (needle[j].eval(env) & 0xff));
            }
            assert forall|q: int| addr <= q < r implies #[trigger] differs_in(m, needle, q, env) by {
                let qq = q - addr;
                assert(differs_at(s, needle, qq, env));
                let j = choose|j: int|
                    0 <= j < needle.len() && (s[qq + j].eval(env) & 0xff) != (needle[j].eval(env)
                        & 0xff);
                assert(needle.len() <= n);
                assert(qq + j < n);
                assert(q + j == addr + (qq + j));
                assert(s[qq + j] == m.byte_at((addr + (qq + j)) as u64));
                assert(s[qq + j] == m.byte_at((q + j) as u64));
            }
        },
        None => {
            assert forall|q: int| addr <= q && q + needle.len() <= addr + n implies #[trigger] differs_in(
                m,
                needle,
                q,
                env,
            ) by {
                let qq = q - addr;
                assert(qq < c);
                assert(differs_at(s, needle, qq, env));
                let j = choose|j: int|
                    0 <= j < needle.len() && (s[qq + j].eval(env) & 0xff) != (needle[j].eval(env)
                        & 0xff);
                assert(s[qq + j] == m.byte_at((q + j) as u64));
            }
        },
    }
}

/// Law of byte comparison: over two ranges of one length, the result is 0
/// exactly when the ranges are equal at every index, zero bytes included.
pub proof fn lemma_diff_scan_zero(s: Seq<Value>, t: Seq<Value>, env: spec_fn(u64) -> u64)
    requires
        s.len() == t.len(),
    ensures
        diff_scan(s, t, env) == 0 <==> forall|i: int|
            0 <= i < s.len() ==> #[trigger] s[i].eval(env) == t[i].eval(env),
    decreases s.len(),
{
    if s.len() > 0 {
        lemma_diff_scan_zero(s.drop_first(), t.drop_first(), env);
        if s[0].eval(env) == t[0].eval(env) {
            if diff_scan(s.drop_first(), t.drop_first(), env) == 0 {
                assert forall|i: int| 0 <= i < s.len() implies #[trigger] s[i].eval(env) == t[i].eval(
                    env,
                ) by {
                    if i > 0 {
                        assert(s[i] == s.drop_first()[i - 1]);
                        assert(t[i] == t.drop_first()[i - 1]);
                    }
                }
            } else {
                let i = choose|i: int|
                    0 <= i < s.drop_first().len() && #[trigger] s.drop_first()[i].eval(env)
                        != t.drop_first()[i].eval(env);
                assert(s[i + 1] == s.drop_first()[i]);
                assert(t[i + 1] == t.drop_first()[i]);
                assert(s[i + 1].eval(env) != t[i + 1].eval(env));
            }
        } else {
            let x = s[0].eval(env);
            let y = t[0].eval(env);
            assert(wsub(x, y) != 0);
        }
    }
}

/// Law of byte comparison: at the first index `i` where two ranges of one
/// length differ, the result is the difference of the bytes there
/// (wrapping), whatever the equal bytes before `i` are, zeros included.
pub proof fn lemma_diff_scan_first_difference(s: Seq<Value>, t: Seq<Value>, i: int, env: spec_fn(u64) -> u64)
    requires
        s.len() == t.len(),
        0 <= i < s.len(),
        s[i].eval(env) != t[i].eval(env),
        forall|k: int| 0 <= k < i ==> #[trigger] s[k].eval(env) == t[k].eval(env),
    ensures
        diff_scan(s, t, env) == wsub(s[i].eval(env), t[i].eval(env)),
    decreases i,
{
    if i > 0 {
        assert(s[0].eval(env) == t[0].eval(env));
        assert forall|k: int| 0 <= k < i - 1 implies #[trigger] s.drop_first()[k].eval(env)
            == t.drop_first()[k].eval(env) by {
            assert(s.drop_first()[k] == s[k + 1]);
            assert(t.drop_first()[k] == t[k + 1]);
        }
        assert(s.drop_first()[i - 1] == s[i]);
        assert(t.drop_first()[i - 1] == t[i]);
        lemma_diff_scan_first_difference(s.drop_first(), t.drop_first(), i - 1, env);
    }
}

/// Law of heap allocation: a request is refused (0) only when the heap has
/// fewer than `len + 16` bytes left; with that much room it is granted at
/// `heap_next`, a non-zero heap address whose block ends within the heap.
pub proof fn lemma_next_block_room(m: Memory, len: u64)
    requires
        m.wf(),
    ensures
        m.heap_next + len + 16 <= HEAP_END ==> m.next_block(len) == m.heap_next,
        m.next_block(len) == m.heap_next || m.next_block(len) == 0,
        m.next_block(len) != 0 ==> HEAP_START <= m.next_block(len) && m.next_block(len) + len <= HEAP_END,
        m.next_block(len) == 0 ==> m.heap_next + len + 16 > HEAP_END,
{
    assert(chunk_size(len) <= len + 16);
    assert(chunk_size(len) >= len);
}

/// Comparing a byte range with itself gives 0.
pub proof fn lemma_diff_self(s: Seq<Value>, env: spec_fn(u64) -> u64)
    ensures
        diff_scan(s, s, env) == 0,
    decreases s.len(),
{
    if s.len() > 0 {
        lemma_diff_self(s.drop_first(), env);
    }
}

/// Swapping the two ranges negates the comparison (modulo 2^64).
pub proof fn lemma_diff_swap(s: Seq<Value>, t: Seq<Value>, env: spec_fn(u64) -> u64)
    ensures
        diff_scan(s, t, env) == wsub(0, diff_scan(t, s, env)),
    decreases s.len(),
{
    if s.len() > 0 && t.len() > 0 {
        if s[0].eval(env) == t[0].eval(env) {
            lemma_diff_swap(s.drop_first(), t.drop_first(), env);
        }
    }
}

/// A block that the heap hands out is aligned, lies in the heap and
/// overlaps no live block; the heap stays well formed.
pub proof fn lemma_fresh_block(m1: Memory, m2: Memory, len: u64)
    requires
        m1.wf(),
        m1.allocated(m2, len),
        fits(m1.heap_next, len),
    ensures
        m2.wf(),
        m1.next_block(len) % HEAP_ALIGN == 0,
        HEAP_START <= m1.next_block(len),
        m1.next_block(len) + len <= HEAP_END,
        forall|a: u64| #[trigger]
            m1.blocks@.contains_key(a) ==> a + m1.blocks@[a] <= m1.next_block(len),
        m2.blocks@.contains_key(m1.next_block(len)),
{
    assert forall|a: u64| #[trigger] m2.blocks@.contains_key(a) implies HEAP_START <= a && a
        + m2.blocks@[a] <= m2.heap_next by {
        if a != m1.heap_next {
            assert(m1.blocks@.contains_key(a));
        }
    }
}

/// The length of a settled C string depends only on its bytes up to and
/// including the terminator.
pub proof fn lemma_settled_prefix(s: Seq<Value>, t: Seq<Value>)
    requires
        settled(s),
        t.len() == s.len(),
        forall|i: int| 0 <= i <= known_len(s) && i < s.len() ==> #[trigger] t[i] == s[i],
    ensures
        settled(t),
        known_len(t) == known_len(s),
    decreases s.len(),
{
    if s.len() > 0 {
        assert(t[0] == s[0]);
        if s[0].word() != 0 {
            assert forall|i: int|
                0 <= i <= known_len(s.drop_first()) && i < s.drop_first().len() implies #[trigger] t.drop_first()[i]
                == s.drop_first()[i] by {
                assert(t[i + 1] == s[i + 1]);
            }
            lemma_settled_prefix(s.drop_first(), t.drop_first());
        }
    }
}

/// Every value in `s` mentions only symbols below `n`.
pub open spec fn all_below(s: Seq<Value>, n: nat) -> bool {
    forall|i: int| 0 <= i < s.len() ==> #[trigger] s[i].below(n)
}

/// The bytes of a memory whose values are below `n` are below `n`.
pub proof fn lemma_region_below(m: Memory, a: u64, k: int, n: nat)
    requires
        m.below(n),
    ensures
        all_below(m.region(a, k), n),
{
    assert forall|i: int| 0 <= i < m.region(a, k).len() implies #[trigger] m.region(a, k)[i].below(
        n,
    ) by {
        let b = (a + i) as u64;
        if m.bytes@.contains_key(b) {
            assert(m.bytes@[b].below(n));
        }
    }
}

/// Storing values below `n` in a map of values below `n` keeps it so.
pub proof fn lemma_store_below(m: Map<u64, Value>, addr: u64, data: Seq<Value>, n: nat)
    requires
        forall|a: u64| m.contains_key(a) ==> #[trigger] m[a].below(n),
        all_below(data, n),
    ensures
        forall|a: u64|
            store(m, addr, data).contains_key(a) ==> #[trigger] store(m, addr, data)[a].below(n),
{
    assert forall|a: u64| store(m, addr, data).contains_key(a) implies #[trigger] store(
        m,
        addr,
        data,
    )[a].below(n) by {
        if addr <= a < addr + data.len() {
            assert(data[a - addr].below(n));
        } else {
            assert(m.contains_key(a));
        }
    }
}

} // verus!
