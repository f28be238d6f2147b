use buffer_utils::buffer_utils::ManagedBufferUtils;
use buffer_utils::error::UtilsError;
use core::cmp::Ordering;

fn buf(s: &str) -> Vec<u8> {
    s.as_bytes().to_vec()
}

#[test]
fn load_keeps_bytes_and_zero_fills() {
    let b = buf("hello");
    let w = b.load_512_bytes().unwrap();
    assert_eq!(&w[..5], b"hello");
    assert!(w[5..].iter().all(|&c| c == 0));
}

#[test]
fn load_full_window() {
    let b = vec![7u8; 512];
    let w = b.load_512_bytes().unwrap();
    assert_eq!(w.to_vec(), b);
}

#[test]
fn load_too_large() {
    let b = vec![1u8; 513];
    assert_eq!(b.load_512_bytes(), Err(UtilsError::BufferTooLarge));
}

#[test]
fn split_with_empty_piece() {
    let parts = ManagedBufferUtils::split(&buf("a,b,,c"), b',').unwrap();
    assert_eq!(parts, vec![buf("a"), buf("b"), buf(""), buf("c")]);
}

#[test]
fn split_empty_buffer() {
    let parts = ManagedBufferUtils::split(&buf(""), b',').unwrap();
    assert!(parts.is_empty());
}

#[test]
fn split_trailing_delimiter() {
    let parts = ManagedBufferUtils::split(&buf("a,"), b',').unwrap();
    assert_eq!(parts, vec![buf("a"), buf("")]);
}

#[test]
fn split_without_delimiter() {
    let parts = ManagedBufferUtils::split(&buf("abc"), b',').unwrap();
    assert_eq!(parts, vec![buf("abc")]);
}

#[test]
fn split_full_window_keeps_last_piece() {
    let mut b = vec![b'x'; 512];
    b[100] = b',';
    let parts = ManagedBufferUtils::split(&b, b',').unwrap();
    assert_eq!(parts.len(), 2);
    assert_eq!(parts[0].len(), 100);
    assert_eq!(parts[1].len(), 411);
}

#[test]
fn split_then_join_gives_buffer_back() {
    for s in ["a,b,,c", ",", ",,x,", "abc", "", "x,y"] {
        let b = buf(s);
        let parts = ManagedBufferUtils::split(&b, b',').unwrap();
        assert_eq!(parts.join(&b','), b);
    }
}

#[test]
fn split_too_large() {
    let b = vec![b'a'; 600];
    assert_eq!(ManagedBufferUtils::split(&b, b','), Err(UtilsError::BufferTooLarge));
}

#[test]
fn split_last_occurence_path() {
    let r = buf("a/b/c").split_last_occurence(b'/').unwrap();
    assert_eq!(r, (buf("a/b"), buf("c")));
}

#[test]
fn split_last_occurence_at_end() {
    let r = buf("ab/").split_last_occurence(b'/').unwrap();
    assert_eq!(r, (buf("ab"), buf("")));
}

#[test]
fn split_last_occurence_missing() {
    assert_eq!(buf("abc").split_last_occurence(b'/'), Err(UtilsError::DelimiterNotFound));
    assert_eq!(buf("").split_last_occurence(b'/'), Err(UtilsError::DelimiterNotFound));
}

#[test]
fn remove_first_char_cases() {
    assert_eq!(buf("abc").remove_first_char(), Ok(buf("bc")));
    assert_eq!(buf("a").remove_first_char(), Ok(buf("")));
    assert_eq!(buf("").remove_first_char(), Err(UtilsError::BufferTooSmall));
}

#[test]
fn remove_first_and_last_char_cases() {
    assert_eq!(buf("\"abc\"").remove_first_and_last_char(), Ok(buf("abc")));
    assert_eq!(buf("ab").remove_first_and_last_char(), Ok(buf("")));
    assert_eq!(buf("a").remove_first_and_last_char(), Err(UtilsError::BufferTooSmall));
    assert_eq!(buf("").remove_first_and_last_char(), Err(UtilsError::BufferTooSmall));
}

#[test]
fn ascii_decode_leading_zero() {
    assert_eq!(buf("042").ascii_to_u64(), Ok(Some(42)));
}

#[test]
fn ascii_decode_cases() {
    assert_eq!(buf("").ascii_to_u64(), Ok(Some(0)));
    assert_eq!(buf("12a").ascii_to_u64(), Ok(None));
    assert_eq!(buf("x").ascii_to_u64(), Ok(None));
    assert_eq!(buf("18446744073709551615").ascii_to_u64(), Ok(Some(u64::MAX)));
    assert_eq!(buf("18446744073709551616").ascii_to_u64(), Ok(None));
    assert_eq!(vec![b'1'; 513].ascii_to_u64(), Err(UtilsError::BufferTooLarge));
}

#[test]
fn ascii_decode_stops_at_zero_byte() {
    assert_eq!(vec![b'1', b'2', 0, b'x'].ascii_to_u64(), Ok(Some(12)));
}

#[test]
fn hex_decode_cases() {
    assert_eq!(buf("ff").hex_to_u64(), Ok(Some(255)));
    assert_eq!(buf("FF").hex_to_u64(), Ok(Some(255)));
    assert_eq!(buf("00").hex_to_u64(), Ok(Some(0)));
    assert_eq!(buf("1g").hex_to_u64(), Ok(None));
    assert_eq!(buf("ffffffffffffffff").hex_to_u64(), Ok(Some(u64::MAX)));
    assert_eq!(buf("10000000000000000").hex_to_u64(), Ok(None));
}

#[test]
fn capitalize_cases() {
    assert_eq!(buf("hello").capitalize(), Ok(buf("Hello")));
    assert_eq!(buf("Hello").capitalize(), Ok(buf("Hello")));
    assert_eq!(buf("1a").capitalize(), Ok(buf("1a")));
    assert_eq!(buf("").capitalize(), Err(UtilsError::BufferEmpty));
}

#[test]
fn equals_ignore_case_cases() {
    assert_eq!(buf("HeLLo").equals_ignore_case(&buf("hello")), Ok(true));
    assert_eq!(buf("hello").equals_ignore_case(&buf("hellp")), Ok(false));
    assert_eq!(buf("hello").equals_ignore_case(&buf("hell")), Ok(false));
    assert_eq!(buf("").equals_ignore_case(&buf("")), Ok(true));
}

#[test]
fn equals_ignore_case_reflexive() {
    for s in ["", "a", "MiXeD 123", "zz@["] {
        assert_eq!(buf(s).equals_ignore_case(&buf(s)), Ok(true));
    }
}

#[test]
fn equals_ignore_case_lengths_differ_without_load() {
    let big = vec![b'a'; 600];
    assert_eq!(big.equals_ignore_case(&buf("a")), Ok(false));
    assert_eq!(big.equals_ignore_case(&big.clone()), Err(UtilsError::BufferTooLarge));
}

#[test]
fn append_trailing_cases() {
    assert_eq!(buf("path").append_trailing_character_if_missing(b'/'), Ok(buf("path/")));
    assert_eq!(buf("path/").append_trailing_character_if_missing(b'/'), Ok(buf("path/")));
    assert_eq!(buf("").append_trailing_character_if_missing(b'/'), Err(UtilsError::BufferEmpty));
}

#[test]
fn replace_all_occurrences() {
    let r = ManagedBufferUtils::replace(&buf("foobarfoo"), b"foo", &buf("X")).unwrap();
    assert_eq!(r, buf("XbarX"));
}

#[test]
fn replace_cases() {
    let r = ManagedBufferUtils::replace(&buf("aaa"), b"aa", &buf("b")).unwrap();
    assert_eq!(r, buf("ba"));
    let r = ManagedBufferUtils::replace(&buf("abc"), b"x", &buf("y")).unwrap();
    assert_eq!(r, buf("abc"));
    let r = ManagedBufferUtils::replace(&buf("abc"), b"c", &buf("")).unwrap();
    assert_eq!(r, buf("ab"));
    let r = ManagedBufferUtils::replace(&buf("ab"), b"bc", &buf("z")).unwrap();
    assert_eq!(r, buf("ab"));
    let r = ManagedBufferUtils::replace(&buf(""), b"a", &buf("z")).unwrap();
    assert_eq!(r, buf(""));
}

#[test]
fn contains_cases() {
    assert_eq!(ManagedBufferUtils::contains(&buf("hello"), b"ell"), Ok(true));
    assert_eq!(ManagedBufferUtils::contains(&buf("hello"), b"elz"), Ok(false));
    assert_eq!(ManagedBufferUtils::contains(&buf("hello"), b"lo"), Ok(true));
    assert_eq!(ManagedBufferUtils::contains(&buf("hello"), b"lox"), Ok(false));
    assert_eq!(ManagedBufferUtils::contains(&buf(""), b"a"), Ok(false));
    assert_eq!(ManagedBufferUtils::contains(&vec![0u8; 513], b"a"), Err(UtilsError::BufferTooLarge));
}

#[test]
fn to_lowercase_cases() {
    assert_eq!(buf("HeLLo, World 1!").to_lowercase(), Ok(buf("hello, world 1!")));
    assert_eq!(buf("").to_lowercase(), Ok(buf("")));
}

#[test]
fn compare_cases() {
    assert_eq!(buf("abc").compare(&buf("abd")), Ok(Ordering::Less));
    assert_eq!(buf("b").compare(&buf("abc")), Ok(Ordering::Greater));
    assert_eq!(buf("abc").compare(&buf("abc")), Ok(Ordering::Equal));
    assert_eq!(buf("ab").compare(&buf("abc")), Ok(Ordering::Less));
    assert_eq!(vec![b'a', 0].compare(&buf("a")), Ok(Ordering::Equal));
    assert_eq!(vec![0u8; 513].compare(&buf("a")), Err(UtilsError::BufferTooLarge));
}
