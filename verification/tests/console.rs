use tifflin::console::{cur_timestamp, hexdump, put_nibble, putb, puth, puts, Uart};

fn text(u: &Uart) -> String {
    String::from_utf8(u.written().to_vec()).unwrap()
}

#[test]
fn puth_zero() {
    let mut u = Uart::new();
    puth(&mut u, 0);
    assert_eq!(text(&u), "0x0");
}

#[test]
fn puth_values() {
    let mut u = Uart::new();
    puth(&mut u, 0x1a);
    assert_eq!(text(&u), "0x1a");
    let mut u = Uart::new();
    puth(&mut u, 0xdead_beef_0000_1234);
    assert_eq!(text(&u), "0xdeadbeef00001234");
    let mut u = Uart::new();
    puth(&mut u, u64::MAX);
    assert_eq!(text(&u), "0xffffffffffffffff");
    let mut u = Uart::new();
    puth(&mut u, 0x1000);
    assert_eq!(text(&u), "0x1000");
}

#[test]
fn puth_matches_format() {
    for v in [1u64, 9, 10, 15, 16, 255, 256, 0x7fff, 1 << 63] {
        let mut u = Uart::new();
        puth(&mut u, v);
        assert_eq!(text(&u), format!("{:#x}", v));
    }
}

#[test]
fn puts_appends() {
    let mut u = Uart::new();
    puts(&mut u, "abc");
    puts(&mut u, "");
    putb(&mut u, b'!');
    assert_eq!(text(&u), "abc!");
}

#[test]
fn nibbles() {
    let mut u = Uart::new();
    put_nibble(&mut u, 0);
    put_nibble(&mut u, 9);
    put_nibble(&mut u, 10);
    put_nibble(&mut u, 15);
    assert_eq!(text(&u), "09af");
}

#[test]
fn hexdump_layout() {
    let mut u = Uart::new();
    hexdump(&mut u, 0x1000, &[0xab, 0x01, 0x00]);
    assert_eq!(text(&u), "hexdump(0x1000, 0x3): ab 01 00 \n");
}

#[test]
fn hexdump_empty() {
    let mut u = Uart::new();
    hexdump(&mut u, 0, &[]);
    assert_eq!(text(&u), "hexdump(0x0, 0x0): \n");
}

#[test]
fn timestamp_is_zero() {
    assert_eq!(cur_timestamp(), 0);
}
