use context_engine::dsl::Dsl;
use context_engine::emit::{
    check_vl_u16_identity, check_vl_u16_identity_u8, emit_u16_slice, emit_u64_slice, emit_u8_slice,
    render_tables,
};
use context_engine::{List, VariableList};

#[test]
fn emit_u64_slice_pads_to_sixteen_digits() {
    let mut out = String::new();
    emit_u64_slice(&mut out, "PATHS", &[1, 0xabc]);
    assert_eq!(out, "pub static PATHS: &[u64] = &[\n    0x0000000000000001, 0x0000000000000abc, \n];\n\n");
}

#[test]
fn emit_u16_slice_breaks_lines_after_eight() {
    let mut out = String::new();
    emit_u16_slice(&mut out, "D", &[0, 1, 2, 3, 4, 5, 6, 7, 0xffff]);
    assert_eq!(
        out,
        "pub static D: &[u16] = &[\n    0x0000, 0x0001, 0x0002, 0x0003, 0x0004, 0x0005, 0x0006, 0x0007, \n    0xffff, \n];\n\n"
    );
}

#[test]
fn emit_u8_slice_sixteen_to_a_line_and_empty() {
    let mut out = String::new();
    emit_u8_slice(&mut out, "W", &[0x61, 0x0f]);
    assert_eq!(out, "pub static W: &[u8] = &[\n    0x61, 0x0f, \n];\n\n");
    let mut empty = String::new();
    emit_u8_slice(&mut empty, "E", &[]);
    assert_eq!(empty, "pub static E: &[u8] = &[\n];\n\n");
}

#[test]
fn identity_offset_over_sixteen_bits_is_refused() {
    let vl: VariableList<u16> = VariableList { identity: vec![0, 3, 70000, 80000], data: vec![] };
    assert_eq!(check_vl_u16_identity(&vl, "leaves"), Err("leaves identity offset 70000 exceeds u16 max 65535".to_string()));
    let ok: VariableList<u8> = VariableList { identity: vec![0, 65535], data: vec![] };
    assert_eq!(check_vl_u16_identity_u8(&ok, "words"), Ok(()));
}

#[test]
fn render_tables_refuses_first_bad_table() {
    let paths: List<u64> = List { data: vec![0] };
    let fine: VariableList<u16> = VariableList { identity: vec![0, 0], data: vec![] };
    let bad: VariableList<u16> = VariableList { identity: vec![0, 65536], data: vec![] };
    let words: VariableList<u8> = VariableList { identity: vec![0, 0], data: vec![] };
    let r = render_tables(&paths, &fine, &fine, &fine, &words, &bad, &fine, &fine, &bad);
    assert_eq!(r, Err("map_keys identity offset 65536 exceeds u16 max 65535".to_string()));
}

#[test]
fn dsl_render_writes_every_table() {
    let out = Dsl::render(b"greeting: hello\n", &["Memory"]).unwrap();
    assert!(out.starts_with("// @generated \u{2014} do not edit by hand\n\npub static PATHS: &[u64] = &[\n"));
    for name in [
        "CHILDREN_IDENTITY", "CHILDREN_DATA", "LEAVES_IDENTITY", "LEAVES_DATA", "VALUES_IDENTITY", "VALUES_DATA",
        "WORDS_IDENTITY", "MAP_KEYS_IDENTITY", "MAP_KEYS_DATA", "MAP_VALS_IDENTITY", "MAP_VALS_DATA",
        "ARGS_KEYS_IDENTITY", "ARGS_KEYS_DATA", "ARGS_VALS_IDENTITY", "ARGS_VALS_DATA",
    ] {
        assert!(out.contains(&format!("pub static {name}: &[u16] = &[\n")), "{name}");
    }
    assert!(out.contains("pub static WORDS_DATA: &[u8] = &[\n"));
    assert!(out.ends_with("];\n\n"));
}

#[test]
fn dsl_render_reports_parse_errors() {
    let e = Dsl::render(b"a: [1\n", &[]).unwrap_err();
    assert!(e.starts_with("YAML parse error: "), "{e}");
}
