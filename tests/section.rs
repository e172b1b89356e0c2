use wasi_js_transformer::section::add_entries_to_section;
use wasi_js_transformer::{PatchError, WasmSection, WasmSectionCode};

fn code_section(end: usize) -> WasmSection {
    WasmSection { code: WasmSectionCode::Code, start_position: 0, end_position: end }
}

#[test]
fn entries_follow_bytes_already_inserted_in_the_section() {
    // the one body grew by one byte after the section was recorded
    let mut buf = vec![0x0a, 0x04, 0x01, 0x03, 0x00, 0x01, 0x0b];
    let entries = vec![vec![0x02, 0x00, 0x0b]];
    let grown = add_entries_to_section(&mut buf, 0, 1, &entries, &code_section(6)).unwrap();
    assert_eq!(buf, vec![0x0a, 0x08, 0x02, 0x03, 0x00, 0x01, 0x0b, 0x02, 0x00, 0x0b]);
    assert_eq!(grown, 3);
}

#[test]
fn entries_are_appended_in_order_after_a_starting_offset() {
    let mut buf = vec![0xff, 0xff, 0x01, 0x02, 0x01, 0x07, 0x33];
    let entries = vec![vec![0x08], vec![0x09, 0x0a]];
    let section = WasmSection { code: WasmSectionCode::Type, start_position: 0, end_position: 4 };
    let grown = add_entries_to_section(&mut buf, 2, 0, &entries, &section).unwrap();
    assert_eq!(buf, vec![0xff, 0xff, 0x01, 0x05, 0x03, 0x07, 0x08, 0x09, 0x0a, 0x33]);
    assert_eq!(grown, 3);
}

#[test]
fn count_field_growth_is_counted_in_the_length() {
    // 127 entries of one byte each; one more makes the count take two bytes
    let mut buf = vec![0x03, 0x80, 0x01, 0x7f];
    buf.extend(std::iter::repeat(0x00).take(127));
    let end = buf.len();
    let section = WasmSection { code: WasmSectionCode::Function, start_position: 0, end_position: end };
    add_entries_to_section(&mut buf, 0, 0, &vec![vec![0x00]], &section).unwrap();
    // length 128 + 1 entry + 1 count byte = 130
    assert_eq!(&buf[..5], &[0x03, 0x82, 0x01, 0x80, 0x01]);
    assert_eq!(buf.len(), 3 + 2 + 128);
}

#[test]
fn empty_list_rewrites_nothing() {
    let mut buf = vec![0x01, 0x02, 0x01, 0x07];
    let section = WasmSection { code: WasmSectionCode::Type, start_position: 0, end_position: 4 };
    assert_eq!(add_entries_to_section(&mut buf, 0, 0, &vec![], &section), Ok(0));
    assert_eq!(buf, vec![0x01, 0x02, 0x01, 0x07]);
}

#[test]
fn section_past_the_end_is_missing() {
    let mut buf = vec![0x01, 0x02, 0x01, 0x07];
    let section = WasmSection { code: WasmSectionCode::Type, start_position: 9, end_position: 12 };
    assert_eq!(
        add_entries_to_section(&mut buf, 0, 0, &vec![vec![0x00]], &section),
        Err(PatchError::MissingSectionField)
    );
    assert_eq!(buf, vec![0x01, 0x02, 0x01, 0x07]);
}

#[test]
fn end_past_the_buffer_is_out_of_bounds() {
    let mut buf = vec![0x01, 0x02, 0x01, 0x07];
    let section = WasmSection { code: WasmSectionCode::Type, start_position: 0, end_position: 9 };
    assert_eq!(
        add_entries_to_section(&mut buf, 0, 0, &vec![vec![0x00]], &section),
        Err(PatchError::PositionOutOfBounds)
    );
}
