use filecat::hex::{digit_char, print_hex, push_hex_cell, push_hex_padded};

fn parse_dump(text: &str) -> Vec<u8> {
    let mut bytes = Vec::new();
    for line in text.lines() {
        let cut = match line.find(' ') {
            Some(at) => at + 2,
            None => continue,
        };
        if cut > line.len() {
            continue;
        }
        for cell in line[cut..].split(' ') {
            if cell.len() == 2 {
                bytes.push(u8::from_str_radix(cell, 16).unwrap());
            }
        }
    }
    bytes
}

#[test]
fn hex_dump_of_nothing_is_one_empty_line() {
    assert_eq!(print_hex(b""), "\n");
}

#[test]
fn hex_dump_of_one_byte() {
    assert_eq!(print_hex(&[0xab]), "00000000  ab \n");
}

#[test]
fn hex_dump_of_one_full_row() {
    let bytes: Vec<u8> = (0..16).collect();
    assert_eq!(
        print_hex(&bytes),
        "00000000  00 01 02 03 04 05 06 07 08 09 0a 0b 0c 0d 0e 0f \n"
    );
}

#[test]
fn hex_dump_starts_a_new_row_every_sixteen_bytes() {
    let bytes: Vec<u8> = (0..18).collect();
    assert_eq!(
        print_hex(&bytes),
        "00000000  00 01 02 03 04 05 06 07 08 09 0a 0b 0c 0d 0e 0f \n00000010  10 11 \n"
    );
}

#[test]
fn hex_dump_matches_the_formatting_of_std() {
    let bytes: Vec<u8> = (0..=255u8).rev().collect();
    let mut want = String::new();
    for (i, b) in bytes.iter().enumerate() {
        if i % 16 == 0 {
            if i != 0 {
                want.push('\n');
            }
            want.push_str(&format!("{:08x}  ", i));
        }
        want.push_str(&format!("{:02x} ", b));
    }
    want.push('\n');
    assert_eq!(print_hex(&bytes), want);
}

#[test]
fn hex_dump_round_trips() {
    let samples: Vec<Vec<u8>> = vec![
        vec![],
        vec![0],
        vec![0xff; 15],
        vec![0x20; 16],
        vec![0x0a; 17],
        (0..=255u8).collect(),
        (0..1000u32).map(|i| (i * 7 % 256) as u8).collect(),
    ];
    for sample in samples {
        assert_eq!(parse_dump(&print_hex(&sample)), sample);
    }
}

#[test]
fn hex_dump_has_one_row_for_every_sixteen_bytes_begun() {
    for len in [1usize, 15, 16, 17, 31, 32, 33, 255, 256, 257] {
        let bytes = vec![0x41u8; len];
        let rows = print_hex(&bytes).matches('\n').count();
        assert_eq!(rows, (len + 15) / 16, "length {}", len);
    }
}

#[test]
fn hex_digits_are_lower_case() {
    let digits: String = (0..16u8).map(digit_char).collect();
    assert_eq!(digits, "0123456789abcdef");
}

#[test]
fn hex_offsets_are_padded_to_the_width_and_never_cut() {
    let mut out = String::new();
    push_hex_padded(&mut out, 0x1f, 8);
    assert_eq!(out, "0000001f");
    let mut out = String::new();
    push_hex_padded(&mut out, 0, 8);
    assert_eq!(out, "00000000");
    let mut out = String::new();
    push_hex_padded(&mut out, 0xabc, 2);
    assert_eq!(out, "abc");
    let mut out = String::new();
    push_hex_padded(&mut out, 0, 0);
    assert_eq!(out, "0");
    let mut out = String::from(">");
    push_hex_padded(&mut out, 0x1_0000_0000, 8);
    assert_eq!(out, ">100000000");
}

#[test]
fn hex_cell_is_two_digits_and_a_space() {
    let mut out = String::from("x");
    push_hex_cell(&mut out, 0x0a);
    push_hex_cell(&mut out, 0xf0);
    assert_eq!(out, "x0a f0 ");
}
