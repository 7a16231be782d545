use lib::memory::HEAP_START;
use lib::sims::libc::{
    access, bcopy, bzero, calloc, close, exit, fflush, fork, free, gethostname, getpagesize,
    getpid, gets, isalnum, isalpha, isblank, iscntrl, isdigit, islower, isupper, lseek, malloc,
    memccpy, memchr, memchr_help, memcmp, memcpy, memfrob, memmem, memmove, mempcpy, memrchr,
    memset, open, printf, puts, read, sleep, stpcpy, strcat, strchr, strchr_help, strcmp, strcpy,
    strdup, strdupa, strfry, strlen, strncat, strncmp, strncpy, strndup, strndupa, strnlen,
    strrchr, strstr, tolower, toupper, zero, MAX_LEN,
};
use lib::state::{State, StateStatus, SymbolKind};
use lib::value::{Value, Width};

fn c(x: u64) -> Value {
    Value::Concrete(x)
}

fn w(v: &Value) -> u64 {
    match v {
        Value::Concrete(x) => *x,
        _ => panic!("expected a concrete value"),
    }
}

fn put_bytes(s: &mut State, addr: u64, text: &[u8]) {
    for (i, b) in text.iter().enumerate() {
        s.memory.write_byte(addr + i as u64, c(*b as u64));
    }
}

fn put_str(s: &mut State, addr: u64, text: &[u8]) {
    put_bytes(s, addr, text);
    s.memory.write_byte(addr + text.len() as u64, c(0));
}

fn get_bytes(s: &State, addr: u64, n: u64) -> Vec<u64> {
    (0..n).map(|i| w(&s.memory.read_byte(addr + i))).collect()
}

fn words(text: &[u8]) -> Vec<u64> {
    text.iter().map(|b| *b as u64).collect()
}

const A: u64 = 0x1000;
const B: u64 = 0x2000;

#[test]
fn strlen_counts_to_the_terminator() {
    let mut s = State::new(1);
    put_str(&mut s, A, b"hello");
    assert_eq!(w(&strlen(&mut s, vec![c(A)])), 5);
}

#[test]
fn strlen_of_empty_string_is_zero() {
    let mut s = State::new(1);
    assert_eq!(w(&strlen(&mut s, vec![c(A)])), 0);
}

#[test]
fn strlen_stops_at_the_limit() {
    let mut s = State::new(1);
    for i in 0..MAX_LEN + 10 {
        s.memory.write_byte(A + i, c(0x41));
    }
    assert_eq!(w(&strlen(&mut s, vec![c(A)])), MAX_LEN);
}

#[test]
fn strnlen_is_bounded() {
    let mut s = State::new(1);
    put_str(&mut s, A, b"hello");
    assert_eq!(w(&strnlen(&mut s, vec![c(A), c(3)])), 3);
    assert_eq!(w(&strnlen(&mut s, vec![c(A), c(10)])), 5);
}

#[test]
fn strlen_over_symbolic_bytes_selects_the_first_zero() {
    let mut s = State::new(1);
    gets(&mut s, vec![c(A)]);
    let len = strlen(&mut s, vec![c(A)]);
    assert!(!matches!(len, Value::Concrete(_)));
    let mut assignment = vec![0x41u64; 256];
    assignment[2] = 0;
    assert_eq!(len.evaluate(&assignment), 2);
    assignment[2] = 0x100; // a byte symbol only keeps its low byte
    assignment[7] = 0;
    assert_eq!(len.evaluate(&assignment), 2);
    assignment[2] = 0x41;
    assert_eq!(len.evaluate(&assignment), 7);
}

#[test]
fn strlen_is_concrete_when_a_concrete_zero_comes_first() {
    let mut s = State::new(1);
    put_str(&mut s, A, b"ab");
    gets(&mut s, vec![c(A + 3)]);
    assert_eq!(w(&strlen(&mut s, vec![c(A)])), 2);
}

#[test]
fn puts_writes_the_line_to_stdout() {
    let mut s = State::new(1);
    put_str(&mut s, A, b"hi");
    let r = puts(&mut s, vec![c(A)]);
    assert_eq!(w(&r), 2);
    let out: Vec<u64> = s.filesystem.files[1].content.iter().map(w).collect();
    assert_eq!(out, vec![0x68, 0x69, 10]);
}

#[test]
fn printf_writes_the_format_string() {
    let mut s = State::new(1);
    put_str(&mut s, A, b"x");
    assert_eq!(w(&printf(&mut s, vec![c(A)])), 1);
    put_str(&mut s, A, b"yz");
    assert_eq!(w(&printf(&mut s, vec![c(A)])), 2);
    let out: Vec<u64> = s.filesystem.files[1].content.iter().map(w).collect();
    assert_eq!(out, vec![0x78, 10, 0x79, 0x7a, 10]);
}

#[test]
fn memmove_handles_overlap() {
    let mut s = State::new(1);
    put_bytes(&mut s, A, b"abcdef");
    let r = memmove(&mut s, vec![c(A + 1), c(A), c(4)]);
    assert_eq!(w(&r), A + 1);
    assert_eq!(get_bytes(&s, A, 6), words(b"aabcdf"));
}

#[test]
fn memcpy_copies_and_returns_destination() {
    let mut s = State::new(1);
    put_bytes(&mut s, A, b"abc");
    assert_eq!(w(&memcpy(&mut s, vec![c(B), c(A), c(3)])), B);
    assert_eq!(get_bytes(&s, B, 3), words(b"abc"));
}

#[test]
fn bcopy_copies_to_its_first_argument_and_returns_zero() {
    let mut s = State::new(1);
    put_bytes(&mut s, A, b"xyz");
    assert_eq!(w(&bcopy(&mut s, vec![c(B), c(A), c(2)])), 0);
    assert_eq!(get_bytes(&s, B, 3), vec![0x78, 0x79, 0]);
}

#[test]
fn mempcpy_returns_the_end_of_the_copy() {
    let mut s = State::new(1);
    put_bytes(&mut s, A, b"abcd");
    assert_eq!(w(&mempcpy(&mut s, vec![c(B), c(A), c(4)])), B + 4);
    assert_eq!(get_bytes(&s, B, 4), words(b"abcd"));
}

#[test]
fn memccpy_copies_the_whole_count() {
    let mut s = State::new(1);
    put_bytes(&mut s, A, b"ab:cd");
    assert_eq!(w(&memccpy(&mut s, vec![c(B), c(A), c(5), c(0x3a)])), B);
    assert_eq!(get_bytes(&s, B, 5), words(b"ab:cd"));
}

#[test]
fn memset_fills_and_bzero_clears() {
    let mut s = State::new(1);
    assert_eq!(w(&memset(&mut s, vec![c(A), c(0x7f), c(4)])), A);
    assert_eq!(get_bytes(&s, A, 5), vec![0x7f, 0x7f, 0x7f, 0x7f, 0]);
    assert_eq!(w(&bzero(&mut s, vec![c(A + 1), c(2)])), 0);
    assert_eq!(get_bytes(&s, A, 4), vec![0x7f, 0, 0, 0x7f]);
}

#[test]
fn memset_stores_a_symbolic_value() {
    let mut s = State::new(1);
    let v = gets(&mut s, vec![c(B)]);
    assert_eq!(w(&v), B);
    let b0 = s.memory.read_byte(B);
    memset(&mut s, vec![c(A), b0, c(2)]);
    let got = s.memory.read_byte(A + 1);
    assert!(matches!(got, Value::Symbol(0, Width::Byte)));
}

#[test]
fn memfrob_xors_with_42_and_twice_restores() {
    let mut s = State::new(1);
    put_bytes(&mut s, A, b"ab");
    assert_eq!(w(&memfrob(&mut s, vec![c(A), c(2)])), 0);
    assert_eq!(get_bytes(&s, A, 2), vec![0x61 ^ 42, 0x62 ^ 42]);
    memfrob(&mut s, vec![c(A), c(2)]);
    assert_eq!(get_bytes(&s, A, 2), words(b"ab"));
}

#[test]
fn gets_writes_fresh_byte_symbols() {
    let mut s = State::new(1);
    let r = gets(&mut s, vec![c(A)]);
    assert_eq!(w(&r), A);
    assert_eq!(s.symbols.len(), 256);
    assert_eq!(s.symbols[5].kind, SymbolKind::Input(A, 5));
    assert!(matches!(s.memory.read_byte(A + 255), Value::Symbol(255, Width::Byte)));
    assert_eq!(w(&s.memory.read_byte(A + 256)), 0);
}

#[test]
fn strcpy_copies_with_terminator() {
    let mut s = State::new(1);
    put_str(&mut s, A, b"abc");
    put_bytes(&mut s, B, b"zzzzz");
    assert_eq!(w(&strcpy(&mut s, vec![c(B), c(A)])), B);
    assert_eq!(get_bytes(&s, B, 5), vec![0x61, 0x62, 0x63, 0, 0x7a]);
    assert_eq!(w(&strlen(&mut s, vec![c(B)])), 3);
}

#[test]
fn stpcpy_returns_the_terminator_address() {
    let mut s = State::new(1);
    put_str(&mut s, A, b"abcd");
    assert_eq!(w(&stpcpy(&mut s, vec![c(B), c(A)])), B + 4);
    assert_eq!(get_bytes(&s, B, 5), vec![0x61, 0x62, 0x63, 0x64, 0]);
}

#[test]
fn strdup_copies_into_the_heap() {
    let mut s = State::new(1);
    put_str(&mut s, A, b"hey");
    let p = w(&strdup(&mut s, vec![c(A)]));
    assert_eq!(p, HEAP_START);
    assert_eq!(get_bytes(&s, p, 4), vec![0x68, 0x65, 0x79, 0]);
    let q = w(&strdupa(&mut s, vec![c(A)]));
    assert_eq!(q, HEAP_START + 16 + 4);
    assert_eq!(get_bytes(&s, HEAP_START + 16, 4), vec![0x68, 0x65, 0x79, 0]);
}

#[test]
fn strndup_copies_a_bounded_prefix() {
    let mut s = State::new(1);
    put_str(&mut s, A, b"hello");
    let p = w(&strndup(&mut s, vec![c(A), c(2)]));
    assert_eq!(p, HEAP_START);
    assert_eq!(get_bytes(&s, p, 3), vec![0x68, 0x65, 0]);
    let q = w(&strndupa(&mut s, vec![c(A), c(3)]));
    assert_eq!(q, HEAP_START + 16 + 3);
    assert_eq!(s.memory.blocks.get(&(HEAP_START + 16)), Some(&3));
}

#[test]
fn strfry_returns_its_argument() {
    let mut s = State::new(1);
    put_str(&mut s, A, b"abc");
    assert_eq!(w(&strfry(&mut s, vec![c(A)])), A);
    assert_eq!(get_bytes(&s, A, 3), words(b"abc"));
}

#[test]
fn strncpy_copies_at_most_n_without_terminator() {
    let mut s = State::new(1);
    put_str(&mut s, A, b"abcdef");
    put_bytes(&mut s, B, b"zzzzzz");
    assert_eq!(w(&strncpy(&mut s, vec![c(B), c(A), c(3)])), B);
    assert_eq!(get_bytes(&s, B, 4), words(b"abcz"));
}

#[test]
fn strcat_appends() {
    let mut s = State::new(1);
    put_str(&mut s, A, b"foo");
    put_str(&mut s, B, b"bar");
    assert_eq!(w(&strcat(&mut s, vec![c(A), c(B)])), A);
    assert_eq!(get_bytes(&s, A, 7), vec![0x66, 0x6f, 0x6f, 0x62, 0x61, 0x72, 0]);
    assert_eq!(w(&strlen(&mut s, vec![c(A)])), 6);
}

#[test]
fn strncat_bounds_both_lengths() {
    let mut s = State::new(1);
    put_str(&mut s, A, b"foo");
    put_str(&mut s, B, b"bar");
    assert_eq!(w(&strncat(&mut s, vec![c(A), c(B), c(2)])), A);
    // first length is 2, second 2, and 3 bytes are copied
    assert_eq!(get_bytes(&s, A, 4), vec![0x66, 0x6f, 0x62, 0x61]);
    assert_eq!(get_bytes(&s, A + 4, 1), vec![0x72]);
}

#[test]
fn memchr_finds_first_and_memrchr_last() {
    let mut s = State::new(1);
    put_bytes(&mut s, A, b"abcabc");
    assert_eq!(w(&memchr(&mut s, vec![c(A), c(0x62), c(6)])), A + 1);
    assert_eq!(w(&memrchr(&mut s, vec![c(A), c(0x62), c(6)])), A + 4);
    assert_eq!(w(&memchr(&mut s, vec![c(A), c(0x7a), c(6)])), 0);
    assert_eq!(w(&memchr(&mut s, vec![c(A), c(0x162), c(6)])), A + 1);
    assert_eq!(w(&memchr(&mut s, vec![c(A), c(0x63), c(2)])), 0);
    assert_eq!(w(&memchr_help(&mut s, vec![c(A), c(0x63), c(6)], true)), A + 5);
}

#[test]
fn memchr_over_symbolic_bytes() {
    let mut s = State::new(1);
    gets(&mut s, vec![c(A)]);
    let r = memchr(&mut s, vec![c(A), c(0x41), c(4)]);
    let mut assignment = vec![0u64; 256];
    assert_eq!(r.evaluate(&assignment), 0);
    assignment[3] = 0x41;
    assert_eq!(r.evaluate(&assignment), A + 3);
    assignment[1] = 0x41;
    assert_eq!(r.evaluate(&assignment), A + 1);
}

#[test]
fn strchr_looks_within_the_string() {
    let mut s = State::new(1);
    put_str(&mut s, A, b"hello");
    assert_eq!(w(&strchr(&mut s, vec![c(A), c(0x6c)])), A + 2);
    assert_eq!(w(&strrchr(&mut s, vec![c(A), c(0x6c)])), A + 3);
    assert_eq!(w(&strchr(&mut s, vec![c(A), c(0x7a)])), 0);
    assert_eq!(w(&strchr(&mut s, vec![c(A), c(0)])), 0);
    assert_eq!(w(&strchr_help(&mut s, vec![c(A), c(0x68)], true)), A);
}

#[test]
fn memcmp_gives_the_first_difference() {
    let mut s = State::new(1);
    put_bytes(&mut s, A, b"abcd");
    put_bytes(&mut s, B, b"abed");
    assert_eq!(w(&memcmp(&mut s, vec![c(A), c(B), c(2)])), 0);
    assert_eq!(w(&memcmp(&mut s, vec![c(A), c(B), c(4)])), 0x63u64.wrapping_sub(0x65));
    assert_eq!(w(&memcmp(&mut s, vec![c(B), c(A), c(4)])), 2);
    assert_eq!(w(&memcmp(&mut s, vec![c(A), c(A), c(4)])), 0);
}

#[test]
fn strcmp_compares_through_the_shorter_terminator() {
    let mut s = State::new(1);
    put_str(&mut s, A, b"abc");
    put_str(&mut s, B, b"abd");
    assert_eq!(w(&strcmp(&mut s, vec![c(A), c(B)])), u64::MAX);
    put_str(&mut s, B, b"ab");
    assert_eq!(w(&strcmp(&mut s, vec![c(A), c(B)])), 0x63);
    put_str(&mut s, B, b"abc");
    assert_eq!(w(&strcmp(&mut s, vec![c(A), c(B)])), 0);
}

#[test]
fn strncmp_bounds_the_lengths() {
    let mut s = State::new(1);
    put_str(&mut s, A, b"abcx");
    put_str(&mut s, B, b"abcy");
    // lengths are 3 and 3 within 3 bytes, so 4 bytes are compared
    assert_eq!(w(&strncmp(&mut s, vec![c(A), c(B), c(3)])), u64::MAX);
    assert_eq!(w(&strncmp(&mut s, vec![c(A), c(B), c(2)])), 0);
}

#[test]
fn memmem_finds_a_word() {
    let mut s = State::new(1);
    put_bytes(&mut s, A, b"xxabyab");
    put_bytes(&mut s, B, b"ab");
    assert_eq!(w(&memmem(&mut s, vec![c(A), c(7), c(B), c(2)])), A + 2);
    put_bytes(&mut s, B, b"yb");
    assert_eq!(w(&memmem(&mut s, vec![c(A), c(7), c(B), c(2)])), 0);
    put_bytes(&mut s, B, b"b");
    assert_eq!(w(&memmem(&mut s, vec![c(A), c(7), c(B), c(1)])), A + 3);
    assert_eq!(w(&memmem(&mut s, vec![c(A), c(3), c(B), c(1)])), 0);
}

#[test]
fn strstr_reads_its_needle_from_the_haystack() {
    let mut s = State::new(1);
    put_str(&mut s, A, b"hello");
    put_str(&mut s, B, b"lo");
    // the needle is the first two bytes of the haystack, "he"
    assert_eq!(w(&strstr(&mut s, vec![c(A), c(B)])), A);
}

#[test]
fn malloc_hands_out_aligned_disjoint_blocks() {
    let mut s = State::new(1);
    let p = w(&malloc(&mut s, vec![c(10)]));
    let q = w(&malloc(&mut s, vec![c(0)]));
    let r = w(&malloc(&mut s, vec![c(32)]));
    assert_eq!(p, HEAP_START);
    assert_eq!(q, HEAP_START + 16);
    assert_eq!(r, HEAP_START + 32);
    assert_eq!(w(&malloc(&mut s, vec![c(u64::MAX)])), 0);
    assert_eq!(s.memory.heap_next, HEAP_START + 64);
}

#[test]
fn calloc_multiplies() {
    let mut s = State::new(1);
    assert_eq!(w(&calloc(&mut s, vec![c(3), c(7)])), HEAP_START);
    assert_eq!(s.memory.blocks.get(&HEAP_START), Some(&21));
    assert_eq!(s.memory.heap_next, HEAP_START + 32);
}

#[test]
fn free_releases_the_block() {
    let mut s = State::new(1);
    let p = w(&malloc(&mut s, vec![c(8)]));
    assert_eq!(w(&free(&mut s, vec![c(p)])), 0);
    assert!(s.memory.blocks.get(&p).is_none());
    assert_eq!(w(&free(&mut s, vec![c(12345)])), 0);
}

#[test]
fn character_classes() {
    let mut s = State::new(1);
    let class = |f: fn(&mut State, Vec<Value>) -> Value, s: &mut State, ch: u64| w(&f(s, vec![c(ch)]));
    assert_eq!(class(islower, &mut s, 0x61), 1);
    assert_eq!(class(islower, &mut s, 0x41), 0);
    assert_eq!(class(islower, &mut s, 0x17a), 1);
    assert_eq!(class(isupper, &mut s, 0x5a), 1);
    assert_eq!(class(isupper, &mut s, 0x5b), 0);
    assert_eq!(class(isalpha, &mut s, 0x40), 0);
    assert_eq!(class(isalpha, &mut s, 0x71), 1);
    assert_eq!(class(isdigit, &mut s, 0x30), 1);
    assert_eq!(class(isdigit, &mut s, 0x3a), 0);
    assert_eq!(class(isalnum, &mut s, 0x39), 1);
    assert_eq!(class(isalnum, &mut s, 0x2d), 0);
    assert_eq!(class(isblank, &mut s, 0x20), 1);
    assert_eq!(class(isblank, &mut s, 0x09), 1);
    assert_eq!(class(isblank, &mut s, 0x0a), 0);
    assert_eq!(class(iscntrl, &mut s, 0x00), 1);
    assert_eq!(class(iscntrl, &mut s, 0x1f), 1);
    assert_eq!(class(iscntrl, &mut s, 0x7f), 1);
    assert_eq!(class(iscntrl, &mut s, 0x20), 0);
}

#[test]
fn case_conversion() {
    let mut s = State::new(1);
    assert_eq!(w(&toupper(&mut s, vec![c(0x61)])), 0x41);
    assert_eq!(w(&toupper(&mut s, vec![c(0x41)])), 0x41);
    assert_eq!(w(&toupper(&mut s, vec![c(0x31)])), 0x31);
    assert_eq!(w(&tolower(&mut s, vec![c(0x5a)])), 0x7a);
    assert_eq!(w(&tolower(&mut s, vec![c(0x7a)])), 0x7a);
    let up = w(&toupper(&mut s, vec![c(0x6d)]));
    assert_eq!(w(&tolower(&mut s, vec![c(up)])), 0x6d);
}

#[test]
fn case_conversion_of_a_symbolic_byte() {
    let mut s = State::new(1);
    gets(&mut s, vec![c(A)]);
    let b = s.memory.read_byte(A);
    let up = toupper(&mut s, vec![b]);
    let mut assignment = vec![0u64; 256];
    assignment[0] = 0x62;
    assert_eq!(up.evaluate(&assignment), 0x42);
    assignment[0] = 0x21;
    assert_eq!(up.evaluate(&assignment), 0x21);
}

#[test]
fn constant_calls() {
    let mut s = State::new(7);
    assert_eq!(w(&zero(&mut s, vec![])), 0);
    assert_eq!(w(&fflush(&mut s, vec![c(1)])), 0);
    assert_eq!(w(&sleep(&mut s, vec![c(5)])), 0);
    assert_eq!(w(&getpagesize(&mut s, vec![])), 0x1000);
    assert_eq!(w(&getpid(&mut s, vec![])), 7);
}

#[test]
fn fork_splits_on_a_constrained_pid() {
    let mut s = State::new(7);
    let r = fork(&mut s, vec![]);
    assert_eq!(s.pid, 8);
    assert!(matches!(r, Value::Symbol(0, Width::Word)));
    assert_eq!(s.symbols[0].kind, SymbolKind::Pid(8));
    assert_eq!(s.constraints.len(), 1);
    let cons = &s.constraints[0];
    assert_eq!(cons.evaluate(&vec![8]), 1);
    assert_eq!(cons.evaluate(&vec![0]), 1);
    assert_eq!(cons.evaluate(&vec![u64::MAX]), 1);
    assert_eq!(cons.evaluate(&vec![9]), 0);
    assert_eq!(w(&getpid(&mut s, vec![])), 8);
}

#[test]
fn gethostname_writes_symbols() {
    let mut s = State::new(1);
    assert_eq!(w(&gethostname(&mut s, vec![c(A), c(3)])), 0);
    assert_eq!(s.symbols.len(), 3);
    assert_eq!(s.symbols[2].kind, SymbolKind::Hostname(2));
    assert!(matches!(s.memory.read_byte(A + 2), Value::Symbol(2, Width::Byte)));
    assert_eq!(w(&s.memory.read_byte(A + 3)), 0);
}

fn add_file(s: &mut State, path: &[u8], content: &[u8]) {
    s.filesystem.add_file(path.to_vec(), content.iter().map(|b| c(*b as u64)).collect());
}

#[test]
fn open_read_write_seek_close() {
    let mut s = State::new(1);
    add_file(&mut s, b"/flag", b"secret");
    put_str(&mut s, A, b"/flag");
    let fd = w(&open(&mut s, vec![c(A), c(0)]));
    assert_eq!(fd, 3);
    assert_eq!(w(&read(&mut s, vec![c(fd), c(B), c(4)])), 4);
    assert_eq!(get_bytes(&s, B, 4), words(b"secr"));
    assert_eq!(w(&read(&mut s, vec![c(fd), c(B), c(10)])), 2);
    assert_eq!(get_bytes(&s, B, 2), words(b"et"));
    assert_eq!(w(&read(&mut s, vec![c(fd), c(B), c(10)])), 0);
    // the position is taken from the third argument
    assert_eq!(w(&lseek(&mut s, vec![c(fd), c(0), c(1)])), 1);
    put_bytes(&mut s, A, b"XY");
    assert_eq!(w(&lib::sims::libc::write(&mut s, vec![c(fd), c(A), c(2)])), 2);
    let content: Vec<u64> = s.filesystem.files[3].content.iter().map(w).collect();
    assert_eq!(content, words(b"sXYret"));
    assert_eq!(w(&close(&mut s, vec![c(fd)])), 0);
    assert!(s.filesystem.descriptors[3].is_none());
    assert_eq!(w(&read(&mut s, vec![c(fd), c(B), c(10)])), 0);
}

#[test]
fn open_of_a_missing_file_fails() {
    let mut s = State::new(1);
    put_str(&mut s, A, b"/nope");
    assert_eq!(w(&open(&mut s, vec![c(A)])), u64::MAX);
    assert_eq!(s.filesystem.descriptors.len(), 3);
}

#[test]
fn open_reuses_the_lowest_closed_descriptor() {
    let mut s = State::new(1);
    add_file(&mut s, b"/a", b"1");
    put_str(&mut s, A, b"/a");
    assert_eq!(w(&open(&mut s, vec![c(A)])), 3);
    assert_eq!(w(&open(&mut s, vec![c(A)])), 4);
    close(&mut s, vec![c(1)]);
    assert_eq!(w(&open(&mut s, vec![c(A)])), 1);
}

#[test]
fn write_past_the_end_pads_with_zeros() {
    let mut s = State::new(1);
    add_file(&mut s, b"/a", b"ab");
    put_str(&mut s, A, b"/a");
    let fd = w(&open(&mut s, vec![c(A)]));
    lseek(&mut s, vec![c(fd), c(0), c(4)]);
    put_bytes(&mut s, B, b"z");
    lib::sims::libc::write(&mut s, vec![c(fd), c(B), c(1)]);
    let content: Vec<u64> = s.filesystem.files[3].content.iter().map(w).collect();
    assert_eq!(content, vec![0x61, 0x62, 0, 0, 0x7a]);
}

#[test]
fn write_to_stdout_appends() {
    let mut s = State::new(1);
    put_bytes(&mut s, A, b"ok");
    assert_eq!(w(&lib::sims::libc::write(&mut s, vec![c(1), c(A), c(2)])), 2);
    assert_eq!(w(&lib::sims::libc::write(&mut s, vec![c(1), c(A), c(1)])), 1);
    let out: Vec<u64> = s.filesystem.files[1].content.iter().map(w).collect();
    assert_eq!(out, words(b"oko"));
}

#[test]
fn access_tells_whether_the_file_exists() {
    let mut s = State::new(1);
    add_file(&mut s, b"/etc/passwd", b"");
    put_str(&mut s, A, b"/etc/passwd");
    put_str(&mut s, B, b"/etc/shadow");
    assert_eq!(w(&access(&mut s, vec![c(A), c(0)])), 0);
    assert_eq!(w(&access(&mut s, vec![c(B), c(0)])), u64::MAX);
}

#[test]
fn exit_ends_the_path() {
    let mut s = State::new(1);
    assert_eq!(s.status, StateStatus::Active);
    assert_eq!(w(&exit(&mut s, vec![c(0)])), 0);
    assert_eq!(s.status, StateStatus::Inactive);
}
