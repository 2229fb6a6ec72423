use hub::qr::{
    ec_codewords, encode, format_bits, generator, gmul, mask_at, render, rendered_size, wifi_join,
    wifi_payload, Code, Grid,
};

#[test]
fn the_format_field_matches_the_published_table() {
    let published = [
        0b111011111000100u16,
        0b111001011110011,
        0b111110110101010,
        0b111100010011101,
        0b110011000101111,
        0b110001100011000,
        0b110110001000001,
        0b110100101110110,
    ];
    for (mask, want) in published.iter().enumerate() {
        assert_eq!(format_bits(mask as u8), *want, "format bits for level L mask {mask}");
    }
}

#[test]
fn the_error_correction_satisfies_a_readers_check() {
    for &(data_len, ec_len) in &[(19usize, 7usize), (55, 15), (108, 26)] {
        let data: Vec<u8> = (0..data_len).map(|i| (i * 7 + 3) as u8).collect();
        let ec = ec_codewords(&data, ec_len);
        let mut full = data.clone();
        full.extend_from_slice(&ec);
        let n = full.len();
        for i in 0..ec_len {
            let mut syndrome = 0u8;
            for (j, &c) in full.iter().enumerate() {
                syndrome ^= gmul(c, gpow((i * (n - 1 - j)) % 255));
            }
            assert_eq!(syndrome, 0, "syndrome {i} for a ({data_len},{ec_len}) block");
        }
        full[3] ^= 0xff;
        let mut any = 0u8;
        for i in 0..ec_len {
            let mut syndrome = 0u8;
            for (j, &c) in full.iter().enumerate() {
                syndrome ^= gmul(c, gpow((i * (n - 1 - j)) % 255));
            }
            any |= syndrome;
        }
        assert_ne!(any, 0, "a corrupted ({data_len},{ec_len}) block passed the check");
    }
}

fn gpow(mut e: usize) -> u8 {
    let mut v = 1u8;
    while e > 0 {
        v = gmul(v, 2);
        e -= 1;
    }
    v
}

fn decode(code: &Code, version: usize) -> Vec<u8> {
    let size = code.size;
    let mut skeleton = Grid::new(version);
    skeleton.place_function_patterns();

    let mut raw = 0u16;
    for i in 0..15 {
        let (r, c) = match i {
            0..=5 => (8, i),
            6 => (8, 7),
            7 => (8, 8),
            8 => (7, 8),
            _ => (14 - i, 8),
        };
        if code.dark(r, c) {
            raw |= 1 << i;
        }
    }
    let mut second = 0u16;
    for i in 0..15 {
        let (r, c) = if i < 7 { (size - 1 - i, 8) } else { (8, size - 15 + i) };
        if code.dark(r, c) {
            second |= 1 << i;
        }
    }
    assert_eq!(raw, second, "the two copies of the format field disagree");
    let value = (raw ^ 0b101010000010010) >> 10;
    assert_eq!(value >> 3, 0b01, "error correction level must read back as L");
    let mask = (value & 0b111) as u8;

    let mut order: Vec<(usize, usize)> = Vec::new();
    let mut col = size - 1;
    let mut upward = true;
    loop {
        if col == 6 {
            col -= 1;
        }
        for i in 0..size {
            let row = if upward { size - 1 - i } else { i };
            for c in [col, col - 1] {
                if !skeleton.is_fixed(row, c) {
                    order.push((row, c));
                }
            }
        }
        upward = !upward;
        if col < 2 {
            break;
        }
        col -= 2;
    }

    let mut bytes = Vec::new();
    let mut byte = 0u8;
    for (n, (r, c)) in order.iter().enumerate() {
        let mut bit = code.dark(*r, *c);
        if mask_at(mask, *r, *c) {
            bit = !bit;
        }
        byte = byte << 1 | bit as u8;
        if n % 8 == 7 {
            bytes.push(byte);
            byte = 0;
        }
    }

    assert_eq!(bytes[0] >> 4, 0b0100, "byte mode");
    let len = ((bytes[0] & 0x0f) as usize) << 4 | (bytes[1] >> 4) as usize;
    let mut out = Vec::with_capacity(len);
    for i in 0..len {
        let hi = (bytes[1 + i] & 0x0f) << 4;
        let lo = bytes[2 + i] >> 4;
        out.push(hi | lo);
    }
    out
}

#[test]
fn a_wifi_credential_comes_back_out_of_its_own_code() {
    let payload = wifi_payload("Class 7B", "quiet-fox-42");
    assert_eq!(payload, "WIFI:T:WPA;S:Class 7B;P:quiet-fox-42;;");
    let code = wifi_join("Class 7B", "quiet-fox-42").expect("a normal credential must fit");
    assert_eq!(code.size, 29, "37 bytes belongs in version 3");
    let back = decode(&code, 3);
    assert_eq!(String::from_utf8_lossy(&back), payload);
}

#[test]
fn all_five_versions_survive_the_round_trip() {
    for (version, size, len) in
        [(1usize, 21usize, 17usize), (2, 25, 32), (3, 29, 53), (4, 33, 78), (5, 37, 106)]
    {
        let payload: Vec<u8> = (0..len).map(|i| b'a' + (i % 26) as u8).collect();
        let code =
            encode(&payload).unwrap_or_else(|| panic!("version {version} payload did not fit"));
        assert_eq!(code.size, size, "wrong version chosen for {len} bytes");
        assert_eq!(decode(&code, version), payload, "version {version} round trip");
    }
}

#[test]
fn punctuation_in_a_password_is_escaped_and_survives() {
    let payload = wifi_payload("Room:5", r"pa;ss\word");
    assert_eq!(payload, r"WIFI:T:WPA;S:Room\:5;P:pa\;ss\\word;;");
    let code = wifi_join("Room:5", r"pa;ss\word").expect("must fit");
    assert_eq!(String::from_utf8_lossy(&decode(&code, 3)), payload);
}

#[test]
fn the_finders_and_timing_are_where_a_camera_expects_them() {
    let code = encode(b"hello").expect("fits in version 1");
    assert_eq!(code.size, 21);
    for (r0, c0) in [(0, 0), (0, 14), (14, 0)] {
        for dr in 0..7 {
            for dc in 0..7 {
                let ring = dr == 0 || dr == 6 || dc == 0 || dc == 6;
                let core = (2..=4).contains(&dr) && (2..=4).contains(&dc);
                assert_eq!(
                    code.dark(r0 + dr, c0 + dc),
                    ring || core,
                    "finder at ({r0},{c0}) is wrong at ({dr},{dc})"
                );
            }
        }
    }
    for i in 0..8 {
        assert!(!code.dark(7, i), "separator row must be light at column {i}");
        assert!(!code.dark(i, 7), "separator column must be light at row {i}");
    }
    for i in 8..13 {
        assert_eq!(code.dark(6, i), i % 2 == 0, "row timing at {i}");
        assert_eq!(code.dark(i, 6), i % 2 == 0, "column timing at {i}");
    }
    assert!(code.dark(13, 8), "the always-dark module is missing");
}

#[test]
fn an_oversized_payload_is_refused_not_cut_short() {
    assert!(encode(&vec![b'x'; 106]).is_some());
    assert!(encode(&vec![b'x'; 107]).is_none());
}

#[test]
fn the_drawing_is_the_right_shape_and_states_its_own_colours() {
    let code = encode(b"hello").expect("fits");
    let quiet = 4;
    let lines = render(&code, quiet);
    let (want_cols, want_rows) = rendered_size(&code, quiet);
    assert_eq!(want_cols, 29, "21 modules plus 4 of quiet zone each side");
    assert_eq!(lines.len(), want_rows, "two module rows per character row");
    for line in &lines {
        assert_eq!(
            line.matches('\u{2580}').count(),
            want_cols,
            "every character row is one half block per column"
        );
        assert_eq!(line.matches("\x1b[38;5;").count(), want_cols, "a foreground per cell");
        assert_eq!(line.matches("\x1b[48;5;").count(), want_cols, "a background per cell");
    }
    assert_eq!(lines[0].matches("\x1b[38;5;15m").count(), want_cols);
    assert_eq!(lines[0].matches("\x1b[48;5;15m").count(), want_cols);
}

#[test]
fn the_field_multiplies_as_published() {
    assert_eq!(gmul(2, 0x80), 0x1d);
    assert_eq!(gmul(0, 77), 0);
    assert_eq!(gmul(1, 77), 77);
    assert_eq!(generator(2), vec![1, 3, 2]);
}
