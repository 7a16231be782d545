use lib::memory::{Memory, HEAP_START};
use lib::sims::fs::FileSystem;
use lib::value::{BinOp, Value, Width};

fn c(x: u64) -> Value {
    Value::Concrete(x)
}

fn w(v: &Value) -> u64 {
    match v {
        Value::Concrete(x) => *x,
        _ => panic!("expected a concrete value"),
    }
}

#[test]
fn operators_fold_on_concrete_words() {
    assert_eq!(w(&Value::binary(BinOp::Add, c(u64::MAX), c(2))), 1);
    assert_eq!(w(&Value::binary(BinOp::Sub, c(1), c(2))), u64::MAX);
    assert_eq!(w(&Value::binary(BinOp::Mul, c(1 << 63), c(2))), 0);
    assert_eq!(w(&Value::binary(BinOp::And, c(0b1100), c(0b1010))), 0b1000);
    assert_eq!(w(&Value::binary(BinOp::Or, c(0b1100), c(0b1010))), 0b1110);
    assert_eq!(w(&Value::binary(BinOp::Xor, c(0b1100), c(0b1010))), 0b0110);
    assert_eq!(w(&Value::binary(BinOp::Ult, c(1), c(2))), 1);
    assert_eq!(w(&Value::binary(BinOp::Ule, c(2), c(2))), 1);
    assert_eq!(w(&Value::binary(BinOp::Uge, c(1), c(2))), 0);
    assert_eq!(w(&Value::binary(BinOp::Eq, c(5), c(5))), 1);
    assert_eq!(w(&Value::complement(c(0))), u64::MAX);
    assert_eq!(w(&Value::ite(c(3), c(10), c(20))), 10);
    assert_eq!(w(&Value::ite(c(0), c(10), c(20))), 20);
}

#[test]
fn symbolic_expressions_evaluate_under_an_assignment() {
    let x = Value::Symbol(0, Width::Word);
    let y = Value::Symbol(1, Width::Byte);
    let sum = Value::binary(BinOp::Add, x.duplicate(), y.duplicate());
    assert!(matches!(sum, Value::Binary(BinOp::Add, _, _)));
    assert_eq!(sum.evaluate(&vec![40, 0x102]), 42);
    let pick = Value::ite(Value::binary(BinOp::Ult, x, c(10)), c(1), Value::complement(y));
    assert_eq!(pick.evaluate(&vec![3, 0]), 1);
    assert_eq!(pick.evaluate(&vec![30, 0xff]), !0xffu64);
    assert_eq!(pick.evaluate(&vec![]), 1);
    assert_eq!(pick.as_concrete(), None);
    assert_eq!(c(9).as_concrete(), Some(9));
}

#[test]
fn memory_reads_back_what_was_written() {
    let mut m = Memory::new();
    let data = vec![c(1), c(2), c(3)];
    m.write_bytes(0x10, &data, 2);
    assert_eq!(w(&m.read_byte(0x10)), 1);
    assert_eq!(w(&m.read_byte(0x11)), 2);
    assert_eq!(w(&m.read_byte(0x12)), 0);
    assert_eq!(m.read_bytes(0x10, 2).iter().map(w).collect::<Vec<_>>(), vec![1, 2]);
    m.write_bytes(0x20, &data, 9);
    assert_eq!(m.read_bytes(0x20, 4).iter().map(w).collect::<Vec<_>>(), vec![1, 2, 3, 0]);
}

#[test]
fn words_are_little_endian() {
    let mut m = Memory::new();
    m.write_bytes(0x10, &vec![c(0x01), c(0x02), c(0x03)], 3);
    assert_eq!(w(&m.read_word(0x10, 3)), 0x030201);
    assert_eq!(w(&m.read_word(0x11, 1)), 0x02);
    assert_eq!(w(&m.read_word(0x10, 8)), 0x030201);
}

#[test]
fn search_of_words_forward_and_backward() {
    let mut m = Memory::new();
    for (i, b) in [1u64, 2, 1, 2, 1, 2].iter().enumerate() {
        m.write_byte(0x10 + i as u64, c(*b));
    }
    assert_eq!(w(&m.search(0x10, c(0x0201), 2, 6, false)), 0x10);
    assert_eq!(w(&m.search(0x10, c(0x0201), 2, 6, true)), 0x14);
    assert_eq!(w(&m.search(0x10, c(0x0102), 2, 6, true)), 0x13);
    assert_eq!(w(&m.search(0x10, c(0x0102), 2, 2, false)), 0);
    assert_eq!(w(&m.search(0x10, c(0xff02), 1, 6, false)), 0x11);
}

#[test]
fn compare_of_symbolic_bytes() {
    let mut m = Memory::new();
    m.write_byte(0x10, Value::Symbol(0, Width::Byte));
    m.write_byte(0x20, c(0x41));
    let d = m.compare(0x10, 0x20, 1);
    assert_eq!(d.evaluate(&vec![0x41]), 0);
    assert_eq!(d.evaluate(&vec![0x43]), 2);
    assert_eq!(d.evaluate(&vec![0x40]), u64::MAX);
}

#[test]
fn heap_blocks_do_not_overlap() {
    let mut m = Memory::new();
    let a = m.allocate(17);
    let b = m.allocate(1);
    assert_eq!(a, HEAP_START);
    assert_eq!(b, HEAP_START + 32);
    assert!(a + 17 <= b);
    m.free(a);
    assert_eq!(m.blocks.len(), 1);
    assert_eq!(m.allocate(0x8000_0000), 0);
}

#[test]
fn file_write_then_read_back() {
    let mut fs = FileSystem::new();
    fs.add_file(b"/tmp/x".to_vec(), vec![]);
    let fd = fs.open(&b"/tmp/x".to_vec()).unwrap();
    assert_eq!(fd, 3);
    fs.write(fd, vec![c(7), c(8), c(9)]);
    fs.seek(fd, 0);
    let got: Vec<u64> = fs.read(fd, 3).iter().map(w).collect();
    assert_eq!(got, vec![7, 8, 9]);
    assert!(fs.has_file(&b"/tmp/x".to_vec()));
    assert!(!fs.has_file(&b"/tmp/y".to_vec()));
    assert_eq!(fs.find(&b"/dev/stdout".to_vec()), Some(1));
    fs.close(fd);
    assert_eq!(fs.read(fd, 3).len(), 0);
}

#[test]
fn read_string_takes_each_byte_modulo_256() {
    let mut m = Memory::new();
    m.write_bytes(0x10, &vec![c(0x68), c(0x169), c(0x21)], 3);
    assert_eq!(m.read_string(0x10, 3), b"hi!".to_vec());
}
