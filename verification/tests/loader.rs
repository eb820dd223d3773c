use tifflin::loader::{
    new_process, process_arguments, ArgumentArea, LoaderError, NullStringBuilder,
    NullStringBuilderError, NullStringList,
};

#[test]
fn builder_terminates_strings() {
    let mut b = NullStringBuilder::new(vec![0xffu8; 8]);
    assert!(b.push(b"ab").is_ok());
    assert!(b.push(b"").is_ok());
    assert!(b.push(b"cd").is_ok());
    assert_eq!(b.into_buffer(), vec![b'a', b'b', 0, 0, b'c', b'd', 0, 0xff]);
}

#[test]
fn builder_exact_fit_has_no_terminator() {
    let mut b = NullStringBuilder::new(vec![0xffu8; 4]);
    assert!(b.push(b"a").is_ok());
    assert!(b.push(b"bc").is_ok());
    assert_eq!(b.into_buffer(), vec![b'a', 0, b'b', b'c']);
}

#[test]
fn builder_errors() {
    let mut b = NullStringBuilder::new(vec![0xffu8; 4]);
    assert!(matches!(b.push(b"a\0b"), Err(NullStringBuilderError::ContainsNull)));
    assert!(matches!(b.push(b"abcde"), Err(NullStringBuilderError::InsufficientSpace)));
    assert!(b.push(b"abcd").is_ok());
    assert!(matches!(b.push(b"x"), Err(NullStringBuilderError::InsufficientSpace)));
    assert!(b.push(b"").is_ok());
    assert_eq!(b.into_buffer(), b"abcd".to_vec());
}

#[test]
fn list_splits_on_nul() {
    let data = [b'a', 0, 0, b'b', b'c'];
    let mut l = NullStringList::new(&data);
    assert_eq!(l.next(), Some(&b"a"[..]));
    assert_eq!(l.next(), Some(&b""[..]));
    assert_eq!(l.next(), Some(&b"bc"[..]));
    assert_eq!(l.next(), None);
}

#[test]
fn list_trailing_nul() {
    let data = [b'x', 0];
    let mut l = NullStringList::new(&data);
    assert_eq!(l.next(), Some(&b"x"[..]));
    assert_eq!(l.next(), None);
}

#[test]
fn process_round_trip() {
    let mut area = ArgumentArea { buffer: vec![0x55u8; 32], arg_count: 0 };
    let args: [&[u8]; 3] = [b"-v", b"", b"file.txt"];
    assert_eq!(new_process(&mut area, b"/sbin/init", &args), Ok(()));
    assert_eq!(area.arg_count, 4);
    let (binary, read) = process_arguments(&area);
    assert_eq!(binary, b"/sbin/init");
    let expected: Vec<&[u8]> = vec![b"/sbin/init", b"-v", b""];
    assert_eq!(read, expected);
}

#[test]
fn process_without_arguments() {
    let mut area = ArgumentArea { buffer: vec![7u8; 6], arg_count: 9 };
    assert_eq!(new_process(&mut area, b"/bin", &[]), Ok(()));
    assert_eq!(area.arg_count, 1);
    let (binary, read) = process_arguments(&area);
    assert_eq!(binary, b"/bin");
    assert!(read.is_empty());
}

#[test]
fn process_rejects_bad_arguments() {
    let mut area = ArgumentArea { buffer: vec![0u8; 8], arg_count: 0 };
    assert_eq!(new_process(&mut area, b"/bin", &[b"toolong"]), Err(LoaderError::BadArguments));
    assert_eq!(area.arg_count, 2);
    assert_eq!(&area.buffer[..5], b"/bin\0");
    let mut area = ArgumentArea { buffer: vec![0u8; 8], arg_count: 0 };
    assert_eq!(new_process(&mut area, b"a\0b", &[]), Err(LoaderError::BadArguments));
}

#[test]
fn empty_argument_into_full_area_is_not_read_back() {
    let mut area = ArgumentArea { buffer: vec![0u8; 4], arg_count: 0 };
    assert_eq!(new_process(&mut area, b"abcd", &[b""]), Ok(()));
    assert_eq!(area.buffer, b"abcd".to_vec());
    let (binary, read) = process_arguments(&area);
    assert_eq!(binary, b"abcd");
    let expected: Vec<&[u8]> = vec![b"abcd"];
    assert_eq!(read, expected);
}
