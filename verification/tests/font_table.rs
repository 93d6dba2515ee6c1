use wasabi::font::lookup_font;

/// A 16-row block whose row `y` has its lit cell at column `y % 8`.
fn walking_bit_rows() -> Vec<u8> {
    let mut t = Vec::new();
    for y in 0..16usize {
        let mut row = [b'.'; 8];
        row[y % 8] = b'*';
        t.extend_from_slice(&row);
        t.push(b'\n');
    }
    t
}

fn table_for(code: &[u8]) -> Vec<u8> {
    let mut t = Vec::new();
    t.extend_from_slice(code);
    t.push(b'\n');
    t.extend(walking_bit_rows());
    t
}

#[test]
fn known_block_yields_exactly_its_pattern() {
    let t = table_for(b"0x41");
    let g = lookup_font(&t, 'A').expect("glyph for A");
    for y in 0..16usize {
        for x in 0..8usize {
            assert_eq!(g.lit_at(x, y), x == y % 8, "cell ({x}, {y})");
        }
    }
}

#[test]
fn absent_code_has_no_glyph() {
    let t = table_for(b"0x41");
    assert!(lookup_font(&t, 'B').is_none());
    assert!(lookup_font(&[], 'A').is_none());
}

#[test]
fn multi_byte_character_has_no_glyph() {
    let t = table_for(b"0x41");
    assert!(lookup_font(&t, '\u{3042}').is_none());
    assert!(lookup_font(&t, '\u{100}').is_none());
}

#[test]
fn high_latin_byte_can_have_a_glyph() {
    let t = table_for(b"0xe9");
    assert!(lookup_font(&t, '\u{e9}').is_some());
}

#[test]
fn lookup_takes_the_first_matching_block() {
    let mut t = table_for(b"0x41");
    // A second block for the same code, fully unlit.
    t.extend_from_slice(b"0x41\n");
    for _ in 0..16 {
        t.extend_from_slice(b"........\n");
    }
    let g = lookup_font(&t, 'A').expect("glyph for A");
    assert!(g.lit_at(0, 0));
    assert!(!g.lit_at(1, 0));
}

#[test]
fn later_blocks_are_found_past_earlier_ones() {
    let mut t = table_for(b"0x30");
    t.extend(table_for(b"0x31"));
    assert!(lookup_font(&t, '0').is_some());
    assert!(lookup_font(&t, '1').is_some());
    assert!(lookup_font(&t, '2').is_none());
}

#[test]
fn hex_header_accepts_both_letter_cases() {
    let t = table_for(b"0x6a");
    assert!(lookup_font(&t, 'j').is_some());
    let t2 = table_for(b"0x6A");
    assert!(lookup_font(&t2, 'j').is_some());
}

#[test]
fn malformed_header_is_not_a_block() {
    // Three hex digits, a stray prefix, or a non-hex digit never match.
    let t = table_for(b"0x041");
    assert!(lookup_font(&t, 'A').is_none());
    let t2 = table_for(b"x41");
    assert!(lookup_font(&t2, 'A').is_none());
    let t3 = table_for(b"0xg1");
    assert!(lookup_font(&t3, 'A').is_none());
}

#[test]
fn missing_cells_default_to_lit() {
    // Rows shorter than eight cells, and missing rows, leave the remaining
    // cells lit.
    let t = b"0x41\n.*\n".to_vec();
    let g = lookup_font(&t, 'A').expect("glyph for A");
    assert!(!g.lit_at(0, 0));
    assert!(g.lit_at(1, 0));
    assert!(g.lit_at(2, 0));
    assert!(g.lit_at(7, 15));
}

#[test]
fn any_non_lit_byte_is_an_unlit_cell() {
    let t = b"0x41\nab*..* c\n".to_vec();
    let g = lookup_font(&t, 'A').expect("glyph for A");
    let want = [false, false, true, false, false, true, false, false];
    for x in 0..8usize {
        assert_eq!(g.lit_at(x, 0), want[x], "cell ({x}, 0)");
    }
}
