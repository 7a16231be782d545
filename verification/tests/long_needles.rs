use lib::sims::libc::{fork, gets, memcmp, memmem, stpcpy, strcpy, strlen, strstr};
use lib::state::State;
use lib::value::{BinOp, Value};

const A: u64 = 0x1000;
const B: u64 = 0x2000;
const C: u64 = 0x3000;

fn c(x: u64) -> Value {
    Value::Concrete(x)
}

fn w(v: &Value) -> u64 {
    match v {
        Value::Concrete(x) => *x,
        _ => panic!("expected a concrete value"),
    }
}

fn put_bytes(s: &mut State, addr: u64, text: &[u8]) {
    for (i, b) in text.iter().enumerate() {
        s.memory.write_byte(addr + i as u64, c(*b as u64));
    }
}

fn put_string(s: &mut State, addr: u64, text: &[u8]) {
    put_bytes(s, addr, text);
    s.memory.write_byte(addr + text.len() as u64, c(0));
}

/// An assignment for the 256 symbols of one `gets`, starting with `first`.
fn assignment(first: &[u64]) -> Vec<u64> {
    let mut a = vec![0u64; 256];
    a[..first.len()].copy_from_slice(first);
    a
}

#[test]
fn memmem_finds_a_needle_longer_than_a_word() {
    let mut s = State::new(1);
    put_bytes(&mut s, A, b"the quick brown fox jumps");
    put_bytes(&mut s, B, b"brown fox j");
    assert_eq!(w(&memmem(&mut s, vec![c(A), c(25), c(B), c(11)])), A + 10);
    assert_eq!(w(&memmem(&mut s, vec![c(A), c(20), c(B), c(11)])), 0);
    put_bytes(&mut s, B, b"brown cat");
    assert_eq!(w(&memmem(&mut s, vec![c(A), c(25), c(B), c(9)])), 0);
    assert_eq!(s.constraints.len(), 0);
}

#[test]
fn strstr_takes_a_needle_of_any_length() {
    let mut s = State::new(1);
    put_string(&mut s, A, b"abcdefghijabcdefghijk");
    put_string(&mut s, B, b"0123456789");
    assert_eq!(w(&strstr(&mut s, vec![c(A), c(B)])), A);
    put_string(&mut s, A, b"abc");
    assert_eq!(w(&strstr(&mut s, vec![c(A), c(B)])), 0);
    assert_eq!(s.constraints.len(), 0);
}

#[test]
fn strstr_over_a_symbolic_haystack_pins_nothing() {
    let mut s = State::new(1);
    gets(&mut s, vec![c(A)]);
    put_string(&mut s, B, b"ab");
    let r = strstr(&mut s, vec![c(A), c(B)]);
    assert_eq!(s.constraints.len(), 0);
    assert_eq!(r.evaluate(&assignment(&[0x61, 0x62, 0x63])), A);
    assert_eq!(r.evaluate(&assignment(&[0x61])), 0);
}

#[test]
fn strcpy_of_a_symbolic_string() {
    let mut s = State::new(1);
    gets(&mut s, vec![c(B)]);
    put_string(&mut s, A, b"zzzz");
    assert_eq!(w(&strcpy(&mut s, vec![c(A), c(B)])), A);
    assert_eq!(s.constraints.len(), 0);
    let ab = assignment(&[0x61, 0x62]);
    assert_eq!(s.memory.read_byte(A + 1).evaluate(&ab), 0x62);
    assert_eq!(s.memory.read_byte(A + 2).evaluate(&ab), 0);
    assert_eq!(s.memory.read_byte(A + 3).evaluate(&ab), 0x7a);
    assert_eq!(s.memory.read_byte(A).evaluate(&assignment(&[])), 0);
    assert_eq!(s.memory.read_byte(A + 1).evaluate(&assignment(&[])), 0x7a);
}

#[test]
fn stpcpy_of_a_symbolic_string_points_at_the_end() {
    let mut s = State::new(1);
    gets(&mut s, vec![c(B)]);
    let r = stpcpy(&mut s, vec![c(A), c(B)]);
    assert_eq!(r.evaluate(&assignment(&[0x61, 0x62])), A + 2);
    assert_eq!(r.evaluate(&assignment(&[])), A);
}

#[test]
fn memcmp_with_a_byte_count() {
    let mut s = State::new(1);
    put_string(&mut s, A, b"abc");
    put_string(&mut s, B, b"abd");
    gets(&mut s, vec![c(C)]);
    let count = s.memory.read_byte(C);
    let r = memcmp(&mut s, vec![c(A), c(B), count]);
    assert_eq!(r.evaluate(&assignment(&[2])), 0);
    assert_eq!(r.evaluate(&assignment(&[3])), u64::MAX);
    assert_eq!(s.constraints.len(), 0);
}

#[test]
fn strlen_at_a_symbolic_pointer_pins_it() {
    let mut s = State::new(7);
    let pid = fork(&mut s, vec![]);
    put_string(&mut s, A, b"hey");
    let ptr = Value::binary(BinOp::Add, c(A - 8), pid);
    assert_eq!(w(&strlen(&mut s, vec![ptr])), 3);
    assert_eq!(s.constraints.len(), 2);
    assert_eq!(s.constraints[1].evaluate(&vec![8]), 1);
}

#[test]
fn write_with_a_byte_count_writes_up_to_its_bound() {
    let mut s = State::new(1);
    put_bytes(&mut s, A, b"hello");
    gets(&mut s, vec![c(C)]);
    let count = s.memory.read_byte(C);
    assert_eq!(w(&lib::sims::libc::write(&mut s, vec![c(1), c(A), count])), 255);
    assert_eq!(s.filesystem.files[1].content.len(), 255);
    assert_eq!(s.constraints.len(), 0);
}

#[test]
fn strchr_and_strrchr_in_a_symbolic_string() {
    let mut s = State::new(1);
    gets(&mut s, vec![c(A)]);
    let first = lib::sims::libc::strchr(&mut s, vec![c(A), c(0x61)]);
    let last = lib::sims::libc::strrchr(&mut s, vec![c(A), c(0x61)]);
    let text = assignment(&[0x78, 0x61, 0x79, 0x61]);
    assert_eq!(first.evaluate(&text), A + 1);
    assert_eq!(last.evaluate(&text), A + 3);
    // the string ends before the second `a`
    let short = assignment(&[0x61, 0x62]);
    assert_eq!(first.evaluate(&short), A);
    assert_eq!(last.evaluate(&short), A);
    assert_eq!(first.evaluate(&assignment(&[])), 0);
    assert_eq!(s.constraints.len(), 0);
}

#[test]
fn strcat_after_a_symbolic_string_pins_its_length() {
    let mut s = State::new(1);
    gets(&mut s, vec![c(A)]);
    put_string(&mut s, B, b"ok");
    assert_eq!(w(&lib::sims::libc::strcat(&mut s, vec![c(A), c(B)])), A);
    // the model gives every input byte 0, so the string at A is empty there
    assert_eq!(s.constraints.len(), 1);
    assert_eq!(w(&s.memory.read_byte(A)), 0x6f);
    assert_eq!(w(&s.memory.read_byte(A + 1)), 0x6b);
    assert_eq!(w(&s.memory.read_byte(A + 2)), 0);
}

#[test]
fn strndup_of_a_symbolic_string() {
    let mut s = State::new(1);
    gets(&mut s, vec![c(A)]);
    let p = w(&lib::sims::libc::strndup(&mut s, vec![c(A), c(4)]));
    assert_eq!(p, lib::memory::HEAP_START);
    let b2 = s.memory.read_byte(p + 2);
    assert_eq!(b2.evaluate(&assignment(&[1, 2, 3, 4])), 3);
    assert_eq!(b2.evaluate(&assignment(&[1, 2])), 0);
    let r = lib::sims::libc::strndupa(&mut s, vec![c(A), c(4)]);
    assert_eq!(r.evaluate(&assignment(&[1, 2])), lib::memory::HEAP_START + 16 + 2);
    assert_eq!(s.constraints.len(), 0);
}

#[test]
fn memcmp_with_a_word_count_is_capped_at_the_model() {
    let mut s = State::new(7);
    let pid = fork(&mut s, vec![]);
    put_bytes(&mut s, A, b"abcdefghij");
    put_bytes(&mut s, B, b"abcdefgXij");
    let r = memcmp(&mut s, vec![c(A), c(B), pid]);
    assert_eq!(r.evaluate(&vec![8]), 0x68 - 0x58);
    assert_eq!(r.evaluate(&vec![5]), 0);
    assert_eq!(s.constraints.len(), 2);
    assert_eq!(s.constraints[1].evaluate(&vec![9]), 0);
}
