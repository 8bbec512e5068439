use procedure_crafter::font::load_font;

fn put_u16(bytes: &mut Vec<u8>, v: u16) {
    bytes.extend_from_slice(&v.to_be_bytes());
}

fn put_u32(bytes: &mut Vec<u8>, v: u32) {
    bytes.extend_from_slice(&v.to_be_bytes());
}

/// The smallest font the parser accepts: a `head`, an `hhea` and a `maxp`
/// table, with one glyph and no outlines.
fn minimal_font() -> Vec<u8> {
    let mut b = Vec::new();
    put_u32(&mut b, 0x0001_0000);
    put_u16(&mut b, 3);
    put_u16(&mut b, 32);
    put_u16(&mut b, 1);
    put_u16(&mut b, 16);
    for (tag, offset, length) in [(b"head", 60u32, 54u32), (b"hhea", 114, 36), (b"maxp", 150, 6)] {
        b.extend_from_slice(tag);
        put_u32(&mut b, 0);
        put_u32(&mut b, offset);
        put_u32(&mut b, length);
    }
    let mut head = vec![0u8; 54];
    head[0..4].copy_from_slice(&0x0001_0000u32.to_be_bytes());
    head[18..20].copy_from_slice(&1000u16.to_be_bytes());
    b.extend_from_slice(&head);
    let mut hhea = vec![0u8; 36];
    hhea[0..4].copy_from_slice(&0x0001_0000u32.to_be_bytes());
    hhea[34..36].copy_from_slice(&1u16.to_be_bytes());
    b.extend_from_slice(&hhea);
    put_u32(&mut b, 0x0000_5000);
    put_u16(&mut b, 1);
    b
}

#[test]
fn font_from_valid_bytes() {
    let font = load_font(minimal_font());
    assert!(font.is_some());
    assert_eq!(font.unwrap().units_per_em(), 1000.0);
}

#[test]
fn font_from_invalid_bytes() {
    assert!(load_font(Vec::new()).is_none());
    assert!(load_font(vec![1, 2, 3, 4, 5, 6, 7, 8]).is_none());
    let mut broken = minimal_font();
    broken.truncate(100);
    assert!(load_font(broken).is_none());
}
