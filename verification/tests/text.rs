use async_chunked_transfer::number::{parse_digit, parse_hex, write_hex};
use async_chunked_transfer::text::{parse_size, trimmed, white_space};

fn std_size(field: &[u8]) -> Option<usize> {
    String::from_utf8(field.to_vec())
        .ok()
        .and_then(|c| usize::from_str_radix(c.trim(), 16).ok())
}

#[test]
fn white_space_is_that_of_unicode() {
    for code in 0..=0x10ffff {
        if let Some(c) = char::from_u32(code) {
            assert_eq!(white_space(c), c.is_whitespace());
        }
    }
}

#[test]
fn digits_are_hexadecimal() {
    for code in 0..=0x10ffff {
        if let Some(c) = char::from_u32(code) {
            assert_eq!(parse_digit(c), c.to_digit(16).map(|d| d as usize));
        }
    }
}

#[test]
fn short_fields_read_as_std_reads_them() {
    for a in 0..=255 {
        assert_eq!(parse_size(vec![a]), std_size(&[a]));
        for b in 0..=255 {
            assert_eq!(parse_size(vec![a, b]), std_size(&[a, b]));
            assert_eq!(parse_size(vec![b'1', a, b]), std_size(&[b'1', a, b]));
            assert_eq!(parse_size(vec![0xe2, a, b, b'1']), std_size(&[0xe2, a, b, b'1']));
        }
    }
}

#[test]
fn fields_have_exact_values() {
    assert_eq!(parse_size(b"".to_vec()), None);
    assert_eq!(parse_size(b"   ".to_vec()), None);
    assert_eq!(parse_size(b" 1F ".to_vec()), Some(31));
    assert_eq!(parse_size(b"1 F".to_vec()), None);
    assert_eq!(parse_size("\u{a0}dead".as_bytes().to_vec()), Some(0xdead));
    assert_eq!(parse_size(b"\xa0dead".to_vec()), None);
    let largest = format!("{:X}", usize::MAX);
    assert_eq!(parse_size(largest.as_bytes().to_vec()), Some(usize::MAX));
    let more = format!("{:x}0", usize::MAX);
    assert_eq!(parse_size(more.as_bytes().to_vec()), None);
}

#[test]
fn numbers_and_trimming_on_characters() {
    let text: Vec<char> = "\u{3000} +7b\u{85}".chars().collect();
    let core: Vec<char> = "+7b".chars().collect();
    assert_eq!(trimmed(&text), &core[..]);
    assert_eq!(parse_hex(&core), Some(0x7b));
    assert_eq!(parse_hex(&text), None);
    assert_eq!(trimmed(&[' ', '\t']), &[] as &[char]);
}

#[test]
fn hex_is_lower_case_without_leading_zeros() {
    let numbers: [usize; 9] = [0, 1, 9, 10, 15, 16, 0xbeef, 0x10000, usize::MAX];
    for n in numbers {
        assert_eq!(write_hex(n), format!("{:x}", n).into_bytes());
        assert_eq!(parse_size(write_hex(n)), Some(n));
    }
}
