use notifications::call::{
    call_functions, decode_call, decode_compact, encode_call, push_compact, ArgType, ArgValue, Call,
    FunctionArgumentMetadata, FunctionDecl, FunctionMetadata, ParamDecl,
};

fn param(name: &str, ty: ArgType, compact: bool) -> ParamDecl {
    ParamDecl { name: name.to_string(), ty, compact }
}

fn function(name: &str, params: Vec<ParamDecl>, docs: Vec<&str>) -> FunctionDecl {
    FunctionDecl {
        name: name.to_string(),
        params,
        docs: docs.into_iter().map(|d| d.to_string()).collect(),
    }
}

/// The functions of the test module, in declaration order.
fn test_module() -> Vec<FunctionDecl> {
    vec![
        function("aux_0", vec![], vec![" Hi, this is a comment."]),
        function("aux_1", vec![param("_data", ArgType::U32, true)], vec![]),
        function(
            "aux_2",
            vec![param("_data", ArgType::I32, false), param("_data2", ArgType::Text, false)],
            vec![],
        ),
        function("aux_3", vec![], vec![]),
        function("aux_4", vec![param("_data", ArgType::I32, false)], vec![]),
        function(
            "aux_5",
            vec![param("_data", ArgType::I32, false), param("_data2", ArgType::U32, true)],
            vec![],
        ),
    ]
}

fn meta(name: &str, args: Vec<(&str, &str)>, docs: Vec<&str>) -> FunctionMetadata {
    FunctionMetadata {
        name: name.to_string(),
        arguments: args
            .into_iter()
            .map(|(n, t)| FunctionArgumentMetadata { name: n.to_string(), ty: t.to_string() })
            .collect(),
        documentation: docs.into_iter().map(|d| d.to_string()).collect(),
    }
}

fn expected_metadata() -> Vec<FunctionMetadata> {
    vec![
        meta("aux_0", vec![], vec![" Hi, this is a comment."]),
        meta("aux_1", vec![("_data", "Compact<u32>")], vec![]),
        meta("aux_2", vec![("_data", "i32"), ("_data2", "String")], vec![]),
        meta("aux_3", vec![], vec![]),
        meta("aux_4", vec![("_data", "i32")], vec![]),
        meta("aux_5", vec![("_data", "i32"), ("_data2", "Compact<u32>")], vec![]),
    ]
}

#[test]
fn module_json_metadata() {
    let metadata = call_functions(&test_module());
    assert_eq!(expected_metadata(), metadata);
}

#[test]
fn compact_attr() {
    let module = test_module();
    let call = Call { function: 1, args: vec![ArgValue::U32(1)] };
    let encoded = encode_call(&module, &call);
    assert_eq!(2, encoded.len());
    assert_eq!(vec![1, 4], encoded);

    let call = Call { function: 5, args: vec![ArgValue::I32(1), ArgValue::U32(2)] };
    let encoded = encode_call(&module, &call);
    assert_eq!(6, encoded.len());
    assert_eq!(vec![5, 1, 0, 0, 0, 8], encoded);
}

#[test]
fn encode_is_correct_and_decode_works() {
    let module = test_module();
    let call = Call { function: 0, args: vec![] };
    let encoded = encode_call(&module, &call);
    assert_eq!(vec![0], encoded);
    let decoded = decode_call(&module, &encoded).unwrap();
    assert_eq!(decoded, call);

    let call = Call { function: 2, args: vec![ArgValue::I32(32), ArgValue::Text(b"hello".to_vec())] };
    let encoded = encode_call(&module, &call);
    assert_eq!(vec![2, 32, 0, 0, 0, 20, 104, 101, 108, 108, 111], encoded);
    let decoded = decode_call(&module, &encoded).unwrap();
    assert_eq!(decoded, call);
}

fn compact_of(v: u32) -> Vec<u8> {
    let mut out = Vec::new();
    push_compact(&mut out, v);
    out
}

#[test]
fn compact_layout_at_mode_boundaries() {
    assert_eq!(compact_of(0), vec![0]);
    assert_eq!(compact_of(63), vec![252]);
    assert_eq!(compact_of(64), vec![1, 1]);
    assert_eq!(compact_of(16383), vec![253, 255]);
    assert_eq!(compact_of(16384), vec![2, 0, 1, 0]);
    assert_eq!(compact_of(1073741823), vec![254, 255, 255, 255]);
    assert_eq!(compact_of(1073741824), vec![3, 0, 0, 0, 64]);
    assert_eq!(compact_of(u32::MAX), vec![3, 255, 255, 255, 255]);
}

#[test]
fn compact_decoding_reads_back_each_mode() {
    for v in [0u32, 1, 63, 64, 300, 16383, 16384, 70000, 1073741823, 1073741824, u32::MAX] {
        let bytes = compact_of(v);
        assert_eq!(decode_compact(&bytes, 0), Some((v, bytes.len())));
    }
}

#[test]
fn compact_decoding_refuses_non_canonical_layouts() {
    // 1 written in the two-byte mode.
    assert_eq!(decode_compact(&vec![5, 0], 0), None);
    // 64 written in the four-byte mode.
    assert_eq!(decode_compact(&vec![2, 1, 0, 0], 0), None);
    // Truncated input.
    assert_eq!(decode_compact(&vec![1], 0), None);
    assert_eq!(decode_compact(&vec![], 0), None);
}

#[test]
fn negative_and_large_arguments_round_trip() {
    let module = test_module();
    let call = Call { function: 5, args: vec![ArgValue::I32(-2), ArgValue::U32(u32::MAX)] };
    let encoded = encode_call(&module, &call);
    assert_eq!(vec![5, 254, 255, 255, 255, 3, 255, 255, 255, 255], encoded);
    assert_eq!(decode_call(&module, &encoded), Some(call));
}

#[test]
fn decoding_refuses_unknown_function_and_trailing_bytes() {
    let module = test_module();
    assert_eq!(decode_call(&module, &vec![6]), None);
    assert_eq!(decode_call(&module, &vec![0, 0]), None);
    assert_eq!(decode_call(&module, &vec![]), None);
    // Text longer than the bytes that follow.
    assert_eq!(decode_call(&module, &vec![2, 32, 0, 0, 0, 20, 104]), None);
}
