use wasi_js_transformer::{
    apply_transformations_to_wasm_binary_vec, LoweredSignature, PatchError, TrampolineFunction,
    WasmCall, WasmFunction, WasmSection, WasmSectionCode, WasmTypeSignature,
};

const HEADER: [u8; 8] = [0x00, 0x61, 0x73, 0x6d, 0x01, 0x00, 0x00, 0x00];

/// A module with one signature `(i64) -> ()`, one import `env.f` of it, and
/// one function whose body is `i64.const 0; call 0` repeated `calls` times.
fn module(calls: usize) -> (Vec<u8>, Vec<WasmSection>, Vec<WasmCall>) {
    let mut m = HEADER.to_vec();
    // type section: 8..15
    m.extend_from_slice(&[0x01, 0x05, 0x01, 0x60, 0x01, 0x7e, 0x00]);
    // import section: 15..26, entry at 18, signature index at 25
    m.extend_from_slice(&[0x02, 0x09, 0x01, 0x03, 0x65, 0x6e, 0x76, 0x01, 0x66, 0x00, 0x00]);
    // function section: 26..30
    m.extend_from_slice(&[0x03, 0x02, 0x01, 0x00]);
    // code section from 30, body size field at 33
    let body_len = 2 + 4 * calls;
    let mut body = vec![0x00];
    let mut sites = Vec::new();
    for k in 0..calls {
        body.extend_from_slice(&[0x42, 0x00, 0x10, 0x00]);
        sites.push(WasmCall { function_index: 0, position: 34 + 1 + 4 * k + 3, function_body_position: 33 });
    }
    body.push(0x0b);
    assert_eq!(body.len(), body_len);
    m.extend_from_slice(&[0x0a, (body_len + 2) as u8, 0x01, body_len as u8]);
    m.extend_from_slice(&body);
    let end = m.len();
    let sections = vec![
        WasmSection { code: WasmSectionCode::Type, start_position: 8, end_position: 15 },
        WasmSection { code: WasmSectionCode::Import, start_position: 15, end_position: 26 },
        WasmSection { code: WasmSectionCode::Function, start_position: 26, end_position: 30 },
        WasmSection { code: WasmSectionCode::Code, start_position: 30, end_position: end },
    ];
    (m, sections, sites)
}

fn import() -> WasmFunction {
    WasmFunction { function_index: 0, signature_index: 0, position: 18 }
}

fn lowered() -> Vec<LoweredSignature> {
    vec![LoweredSignature { original_signature_index: 0, bytes: vec![0x60, 0x02, 0x7f, 0x7f, 0x00] }]
}

fn trampolines() -> Vec<TrampolineFunction> {
    vec![TrampolineFunction { signature_index: 0, bytes: vec![0x02, 0x00, 0x0b] }]
}

fn functions(n: usize) -> Vec<WasmFunction> {
    (0..n).map(|i| WasmFunction { function_index: i, signature_index: 0, position: 0 }).collect()
}

fn run(
    buf: &mut Vec<u8>,
    sections: &[WasmSection],
    calls: &[WasmCall],
    n_functions: usize,
) -> Result<(), PatchError> {
    let imp = import();
    apply_transformations_to_wasm_binary_vec(
        buf,
        &[&imp],
        &trampolines(),
        &lowered(),
        sections,
        &[WasmTypeSignature { index: 0 }],
        &functions(n_functions),
        calls,
    )
}

#[test]
fn end_to_end_single_call() {
    let (mut buf, sections, calls) = module(1);
    run(&mut buf, &sections, &calls, 2).unwrap();
    let mut expected = HEADER.to_vec();
    // two signatures now
    expected.extend_from_slice(&[0x01, 0x0a, 0x02, 0x60, 0x01, 0x7e, 0x00, 0x60, 0x02, 0x7f, 0x7f, 0x00]);
    // the import uses signature 1
    expected.extend_from_slice(&[0x02, 0x09, 0x01, 0x03, 0x65, 0x6e, 0x76, 0x01, 0x66, 0x00, 0x01]);
    // one more function, of signature 0
    expected.extend_from_slice(&[0x03, 0x03, 0x02, 0x00, 0x00]);
    // the call targets function 2; the trampoline body follows
    expected.extend_from_slice(&[0x0a, 0x0b, 0x02, 0x06, 0x00, 0x42, 0x00, 0x10, 0x02, 0x0b, 0x02, 0x00, 0x0b]);
    assert_eq!(buf, expected);
}

#[test]
fn longer_call_operand_grows_body_size() {
    let (mut buf, sections, calls) = module(1);
    run(&mut buf, &sections, &calls, 200).unwrap();
    let code = &buf[buf.len() - 14..];
    // operand 200 takes two bytes: body 6 -> 7, section 8 + 1 + 3 = 12
    assert_eq!(code, &[0x0a, 0x0c, 0x02, 0x07, 0x00, 0x42, 0x00, 0x10, 0xc8, 0x01, 0x0b, 0x02, 0x00, 0x0b]);
}

#[test]
fn two_calls_in_one_body_adjust_its_size_once() {
    let (mut buf, sections, calls) = module(2);
    run(&mut buf, &sections, &calls, 200).unwrap();
    let code = &buf[buf.len() - 19..];
    // section 12 + 2 + 3 = 17; body 10 + 2 = 12, in one size field
    assert_eq!(
        code,
        &[
            0x0a, 0x11, 0x02, 0x0c, 0x00, 0x42, 0x00, 0x10, 0xc8, 0x01, 0x42, 0x00, 0x10, 0xc8, 0x01,
            0x0b, 0x02, 0x00, 0x0b
        ]
    );
}

#[test]
fn no_affected_imports_leaves_module_unchanged() {
    let (mut buf, sections, _) = module(1);
    let before = buf.clone();
    apply_transformations_to_wasm_binary_vec(
        &mut buf,
        &[],
        &[],
        &[],
        &sections,
        &[WasmTypeSignature { index: 0 }],
        &functions(2),
        &[],
    )
    .unwrap();
    assert_eq!(buf, before);
}

#[test]
fn same_sorted_calls_give_same_bytes() {
    let (buf, sections, calls) = module(2);
    let mut a = buf.clone();
    let mut b = buf.clone();
    let mut sorted = calls.clone();
    sorted.sort_by_key(|c| c.position);
    run(&mut a, &sections, &calls, 200).unwrap();
    run(&mut b, &sections, &sorted, 200).unwrap();
    assert_eq!(a, b);
}

#[test]
fn missing_type_section_is_reported() {
    let (mut buf, sections, calls) = module(1);
    let before = buf.clone();
    let rest: Vec<WasmSection> = sections[1..].to_vec();
    assert_eq!(run(&mut buf, &rest, &calls, 2), Err(PatchError::MissingSectionField));
    assert_eq!(buf, before);
}

#[test]
fn unknown_lowered_signature_is_reported() {
    let (mut buf, sections, calls) = module(1);
    let imp = WasmFunction { function_index: 0, signature_index: 3, position: 18 };
    let r = apply_transformations_to_wasm_binary_vec(
        &mut buf,
        &[&imp],
        &trampolines(),
        &lowered(),
        &sections,
        &[WasmTypeSignature { index: 0 }],
        &functions(2),
        &calls,
    );
    assert_eq!(r, Err(PatchError::UnresolvedSignatureMapping));
}

#[test]
fn import_past_the_end_is_out_of_bounds() {
    let (mut buf, sections, calls) = module(1);
    let imp = WasmFunction { function_index: 0, signature_index: 0, position: 1000 };
    let r = apply_transformations_to_wasm_binary_vec(
        &mut buf,
        &[&imp],
        &trampolines(),
        &lowered(),
        &sections,
        &[WasmTypeSignature { index: 0 }],
        &functions(2),
        &calls,
    );
    assert_eq!(r, Err(PatchError::PositionOutOfBounds));
}

#[test]
fn edits_out_of_order_are_refused() {
    let (mut buf, mut sections, calls) = module(1);
    let before = buf.clone();
    // a type section said to end past the module
    sections[0].end_position = 1000;
    assert_eq!(run(&mut buf, &sections, &calls, 2), Err(PatchError::PositionOutOfBounds));
    assert_eq!(buf, before);
}

#[test]
fn call_without_trampoline_is_reported() {
    let (mut buf, sections, calls) = module(1);
    let imp = import();
    let before = buf.clone();
    let r = apply_transformations_to_wasm_binary_vec(
        &mut buf,
        &[&imp],
        &[],
        &lowered(),
        &sections,
        &[WasmTypeSignature { index: 0 }],
        &functions(2),
        &calls,
    );
    assert_eq!(r, Err(PatchError::UnresolvedSignatureMapping));
    assert_eq!(buf, before);
}

#[test]
fn signature_index_past_127_takes_two_bytes() {
    let (mut buf, sections, calls) = module(1);
    let imp = import();
    let types: Vec<WasmTypeSignature> = (0..200).map(|i| WasmTypeSignature { index: i }).collect();
    apply_transformations_to_wasm_binary_vec(
        &mut buf,
        &[&imp],
        &trampolines(),
        &lowered(),
        &sections,
        &types,
        &functions(2),
        &calls,
    )
    .unwrap();
    // type section grew by 5 bytes; the import's signature field follows
    let field = 25 + 5;
    assert_eq!(&buf[field..field + 2], &[0xc8, 0x01]);
}

#[test]
fn call_past_the_end_is_out_of_bounds() {
    let (mut buf, sections, _) = module(1);
    let calls = vec![WasmCall { function_index: 0, position: 500, function_body_position: 33 }];
    assert_eq!(run(&mut buf, &sections, &calls, 2), Err(PatchError::PositionOutOfBounds));
}

#[test]
fn undecodable_call_operand_is_malformed() {
    let (mut buf, sections, _) = module(1);
    // the last byte of the module is a continuation byte with nothing after it
    let last = buf.len() - 1;
    buf[last] = 0x80;
    let calls = vec![WasmCall { function_index: 0, position: last, function_body_position: 33 }];
    assert_eq!(run(&mut buf, &sections, &calls, 2), Err(PatchError::MalformedVarint));
}
