use lib::memory::HEAP_START;
use lib::sims::libc::{
    bzero, fork, gets, memcpy, memfrob, mempcpy, memset, open, puts, read, strcmp, strdupa,
    strncmp,
};
use lib::state::State;
use lib::value::{BinOp, Value, Width};

const A: u64 = 0x1000;
const B: u64 = 0x2000;
const C: u64 = 0x3000;

fn c(x: u64) -> Value {
    Value::Concrete(x)
}

fn w(v: &Value) -> u64 {
    match v {
        Value::Concrete(x) => *x,
        _ => panic!("expected a concrete value"),
    }
}

fn put_str(s: &mut State, addr: u64, text: &[u8]) {
    for (i, b) in text.iter().enumerate() {
        s.memory.write_byte(addr + i as u64, c(*b as u64));
    }
    s.memory.write_byte(addr + text.len() as u64, c(0));
}

/// An assignment for the 256 symbols of one `gets`, starting with `first`.
fn assign(first: &[u64]) -> Vec<u64> {
    let mut a = vec![0u64; 256];
    a[..first.len()].copy_from_slice(first);
    a
}

#[test]
fn memset_with_a_byte_count_guards_each_byte() {
    let mut s = State::new(1);
    gets(&mut s, vec![c(C)]);
    let count = s.memory.read_byte(C);
    assert!(matches!(count, Value::Symbol(0, Width::Byte)));
    memset(&mut s, vec![c(A), c(0x41), count]);
    assert_eq!(s.constraints.len(), 0);
    let b5 = s.memory.read_byte(A + 5);
    assert_eq!(b5.evaluate(&assign(&[10])), 0x41);
    assert_eq!(b5.evaluate(&assign(&[5])), 0);
    assert_eq!(s.memory.read_byte(A + 254).evaluate(&assign(&[255])), 0x41);
    assert_eq!(w(&s.memory.read_byte(A + 255)), 0);
}

#[test]
fn memset_with_a_word_count_caps_it_at_the_model() {
    let mut s = State::new(7);
    let pid = fork(&mut s, vec![]);
    assert_eq!(s.model, vec![8]);
    memset(&mut s, vec![c(A), c(0x41), pid]);
    // bytes up to the model word 8 are written, each guarded by the count
    let at8: Vec<u64> = (0..9).map(|i| s.memory.read_byte(A + i).evaluate(&vec![8])).collect();
    assert_eq!(at8, vec![0x41, 0x41, 0x41, 0x41, 0x41, 0x41, 0x41, 0x41, 0]);
    let at3: Vec<u64> = (0..9).map(|i| s.memory.read_byte(A + i).evaluate(&vec![3])).collect();
    assert_eq!(at3, vec![0x41, 0x41, 0x41, 0, 0, 0, 0, 0, 0]);
    // the path is capped: the count is at most 8
    assert_eq!(s.constraints.len(), 2);
    assert_eq!(s.constraints[1].evaluate(&vec![8]), 1);
    assert_eq!(s.constraints[1].evaluate(&vec![3]), 1);
    assert_eq!(s.constraints[1].evaluate(&vec![9]), 0);
}

#[test]
fn symbolic_pointer_is_taken_from_the_model() {
    let mut s = State::new(7);
    let pid = fork(&mut s, vec![]);
    let ptr = Value::binary(BinOp::Add, c(A - 8), pid);
    let r = memset(&mut s, vec![ptr, c(0x42), c(2)]);
    assert_eq!(r.evaluate(&vec![8]), A);
    assert_eq!(w(&s.memory.read_byte(A)), 0x42);
    assert_eq!(w(&s.memory.read_byte(A + 1)), 0x42);
    assert_eq!(w(&s.memory.read_byte(A + 2)), 0);
    assert_eq!(s.constraints.len(), 2);
    assert_eq!(s.constraints[1].evaluate(&vec![8]), 1);
    assert_eq!(s.constraints[1].evaluate(&vec![7]), 0);
}

#[test]
fn concretize_pins_a_symbolic_value() {
    let mut s = State::new(7);
    let pid = fork(&mut s, vec![]);
    assert_eq!(s.concretize(&pid), 8);
    assert_eq!(s.constraints.len(), 2);
    assert_eq!(s.concretize(&c(5)), 5);
    assert_eq!(s.constraints.len(), 2);
    assert_eq!(s.model, vec![8]);
}

#[test]
fn bzero_with_a_byte_count() {
    let mut s = State::new(1);
    put_str(&mut s, A, b"xyz");
    gets(&mut s, vec![c(C)]);
    let count = s.memory.read_byte(C);
    bzero(&mut s, vec![c(A), count]);
    let b1 = s.memory.read_byte(A + 1);
    assert_eq!(b1.evaluate(&assign(&[2])), 0);
    assert_eq!(b1.evaluate(&assign(&[1])), 0x79);
}

#[test]
fn memfrob_with_a_byte_count() {
    let mut s = State::new(1);
    put_str(&mut s, A, b"ab");
    gets(&mut s, vec![c(C)]);
    let count = s.memory.read_byte(C);
    assert_eq!(w(&memfrob(&mut s, vec![c(A), count])), 0);
    let b0 = s.memory.read_byte(A);
    assert_eq!(b0.evaluate(&assign(&[1])), 0x61 ^ 42);
    assert_eq!(b0.evaluate(&assign(&[0])), 0x61);
    assert_eq!(s.constraints.len(), 0);
}

#[test]
fn read_with_a_byte_count() {
    let mut s = State::new(1);
    s.filesystem.add_file(b"/flag".to_vec(), b"secret".iter().map(|b| c(*b as u64)).collect());
    put_str(&mut s, A, b"/flag");
    let fd = w(&open(&mut s, vec![c(A)]));
    assert_eq!(fd, 3);
    gets(&mut s, vec![c(C)]);
    let count = s.memory.read_byte(C);
    assert_eq!(w(&read(&mut s, vec![c(fd), c(B), count])), 6);
    let b2 = s.memory.read_byte(B + 2);
    assert_eq!(b2.evaluate(&assign(&[5])), 0x63);
    assert_eq!(b2.evaluate(&assign(&[2])), 0);
    assert_eq!(s.constraints.len(), 0);
}

#[test]
fn puts_of_a_symbolic_line() {
    let mut s = State::new(1);
    gets(&mut s, vec![c(A)]);
    let r = puts(&mut s, vec![c(A)]);
    assert!(r.as_concrete().is_none());
    assert_eq!(r.evaluate(&assign(&[0x61, 0x62, 0])), 2);
    assert_eq!(r.evaluate(&assign(&[])), 0);
    assert_eq!(s.filesystem.files[1].content.len(), 257);
    assert_eq!(w(&s.filesystem.files[1].content[256]), 10);
    assert_eq!(s.constraints.len(), 0);
}

#[test]
fn strcmp_of_a_symbolic_string() {
    let mut s = State::new(1);
    gets(&mut s, vec![c(A)]);
    put_str(&mut s, B, b"ab");
    let r = strcmp(&mut s, vec![c(A), c(B)]);
    assert_eq!(r.evaluate(&assign(&[0x61, 0x62, 0])), 0);
    assert_eq!(r.evaluate(&assign(&[0x61, 0x63, 0])), 1);
    assert_eq!(r.evaluate(&assign(&[0x61, 0])), 0u64.wrapping_sub(0x62));
    assert_eq!(r.evaluate(&assign(&[0x61, 0x62, 0x63])), 0x63);
    assert_eq!(s.constraints.len(), 0);
}

#[test]
fn strncmp_of_a_symbolic_string() {
    let mut s = State::new(1);
    gets(&mut s, vec![c(A)]);
    put_str(&mut s, B, b"ab");
    let r = strncmp(&mut s, vec![c(A), c(B), c(1)]);
    assert_eq!(r.evaluate(&assign(&[0x61, 0x62])), 0);
    assert_eq!(r.evaluate(&assign(&[0x61, 0x63])), 1);
    assert_eq!(r.evaluate(&assign(&[0x60])), u64::MAX);
    assert_eq!(s.constraints.len(), 0);
}

#[test]
fn strcmp_is_zero_on_itself_and_flips_on_swap() {
    let mut s = State::new(1);
    put_str(&mut s, A, b"apple");
    put_str(&mut s, B, b"apricot");
    assert_eq!(w(&strcmp(&mut s, vec![c(A), c(A)])), 0);
    let ab = w(&strcmp(&mut s, vec![c(A), c(B)]));
    let ba = w(&strcmp(&mut s, vec![c(B), c(A)]));
    assert_eq!(ab, 0u64.wrapping_sub(ba));
    assert!((ab as i64) < 0);
}

#[test]
fn strdupa_of_a_symbolic_string() {
    let mut s = State::new(1);
    gets(&mut s, vec![c(A)]);
    let r = strdupa(&mut s, vec![c(A)]);
    assert_eq!(r.evaluate(&assign(&[0x61, 0])), HEAP_START + 2);
    assert_eq!(r.evaluate(&assign(&[])), HEAP_START + 1);
    assert!(matches!(s.memory.read_byte(HEAP_START), Value::Symbol(0, Width::Byte)));
    assert_eq!(w(&s.memory.read_byte(HEAP_START + 256)), 0);
    assert_eq!(s.constraints.len(), 0);
}

#[test]
fn bounds_of_values() {
    assert_eq!(Value::Symbol(3, Width::Byte).upper_bound(), 255);
    assert_eq!(Value::Symbol(3, Width::Word).upper_bound(), u64::MAX);
    let pick = Value::ite(Value::Symbol(0, Width::Word), c(4), c(9));
    assert_eq!(pick.upper_bound(), 9);
    let masked = Value::binary(BinOp::And, Value::Symbol(0, Width::Word), c(0x0f));
    assert_eq!(masked.upper_bound(), 0x0f);
    let less = Value::binary(BinOp::Ult, Value::Symbol(0, Width::Word), c(3));
    assert_eq!(less.upper_bound(), 1);
}

#[test]
fn memcpy_with_a_byte_count() {
    let mut s = State::new(1);
    put_str(&mut s, B, b"hello");
    gets(&mut s, vec![c(C)]);
    let count = s.memory.read_byte(C);
    assert_eq!(w(&memcpy(&mut s, vec![c(A), c(B), count.duplicate()])), A);
    let b3 = s.memory.read_byte(A + 3);
    assert_eq!(b3.evaluate(&assign(&[4])), 0x6c);
    assert_eq!(b3.evaluate(&assign(&[3])), 0);
    let end = mempcpy(&mut s, vec![c(A), c(B), count]);
    assert_eq!(end.evaluate(&assign(&[3])), A + 3);
    assert_eq!(s.constraints.len(), 0);
}
