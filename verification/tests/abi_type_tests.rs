use algonaut_abi::abi_type::{
    make_dynamic_array_type, make_static_array_type, make_tuple_type, make_ufixed_type,
    make_uint_type, parse_tuple_content, AbiType,
};

#[test]
fn test_parse_uint_in_range() {
    let parsed = "uint64".parse::<AbiType>();
    assert!(parsed.is_ok());
    assert_eq!(make_uint_type(64).unwrap(), parsed.unwrap());
}

#[test]
fn test_parse_uint_out_of_range() {
    assert!("uint7".parse::<AbiType>().is_err());
    assert!("uint513".parse::<AbiType>().is_err());
    assert!("uint0".parse::<AbiType>().is_err());
    assert!("uint".parse::<AbiType>().is_err());
}

#[test]
fn test_parse_ufixed_in_range() {
    let parsed = "ufixed128x10".parse::<AbiType>();
    assert!(parsed.is_ok());
    assert_eq!(make_ufixed_type(128, 10).unwrap(), parsed.unwrap());
}

#[test]
fn test_parse_ufixed_out_of_range() {
    assert!("ufixed8x0".parse::<AbiType>().is_err());
    assert!("ufixed8x161".parse::<AbiType>().is_err());
}

#[test]
fn test_parse_nested_tuple() {
    let uint32 = make_uint_type(32).unwrap();
    let inner = make_tuple_type(vec![uint32.clone(), uint32.clone()]).unwrap();
    let expected = make_tuple_type(vec![uint32, inner]).unwrap();
    let parsed = "(uint32,(uint32,uint32))".parse::<AbiType>();
    assert!(parsed.is_ok());
    assert_eq!(expected, parsed.unwrap());
}

#[test]
fn test_parse_empty_tuple() {
    let parsed = "()".parse::<AbiType>();
    assert!(parsed.is_ok());
    assert_eq!("()", parsed.unwrap().string().unwrap());
}

#[test]
fn test_parse_arrays() {
    let byte = "byte".parse::<AbiType>().unwrap();
    assert_eq!(
        make_dynamic_array_type(byte.clone()),
        "byte[]".parse::<AbiType>().unwrap()
    );
    assert_eq!(
        make_static_array_type(byte, 32),
        "byte[32]".parse::<AbiType>().unwrap()
    );
    assert_eq!(
        make_static_array_type(make_dynamic_array_type("bool".parse::<AbiType>().unwrap()), 0),
        "bool[][0]".parse::<AbiType>().unwrap()
    );
}

#[test]
fn test_parse_rejects_malformed_strings() {
    for s in [
        "",
        "int32",
        "uint32x5",
        "uint8[",
        "uint8[]x",
        "uint8[a]",
        "uint8[65536]",
        "ufixed8",
        "ufixed8x",
        "ufixedx8",
        "ufixed8x2x3",
        "(uint8",
        "uint8)",
        "(uint8,,uint8)",
        "(,uint8)",
        "(uint8,)",
        "((uint8)(uint8))",
        "address32",
        "bytes",
        "string[8]x",
    ] {
        assert!(s.parse::<AbiType>().is_err(), "{s} should be rejected");
    }
}

#[test]
fn test_parse_rejects_non_canonical_numerals() {
    assert!("uint08".parse::<AbiType>().is_err());
    assert!("uint+8".parse::<AbiType>().is_err());
    assert!("ufixed8x01".parse::<AbiType>().is_err());
    assert!("uint8[01]".parse::<AbiType>().is_err());
}

#[test]
fn test_format_round_trip_from_strings() {
    for s in [
        "uint8",
        "uint512",
        "byte",
        "bool",
        "address",
        "string",
        "ufixed8x1",
        "ufixed512x160",
        "uint8[0]",
        "uint8[65535]",
        "byte[][]",
        "(uint32,(uint32,uint32))",
        "()",
        "(uint64,(byte,(string,bool)),address[2][])",
        "((uint8,bool)[3],string)",
    ] {
        let t = s.parse::<AbiType>().unwrap();
        assert_eq!(s, t.string().unwrap(), "format(parse({s})) differs");
    }
}

#[test]
fn test_format_round_trip_from_types() {
    let uint8 = make_uint_type(8).unwrap();
    let deep = make_tuple_type(vec![
        make_static_array_type(uint8.clone(), 7),
        make_dynamic_array_type(make_ufixed_type(16, 3).unwrap()),
        "string".parse::<AbiType>().unwrap(),
    ])
    .unwrap();
    for t in [uint8, deep] {
        let s = t.string().unwrap();
        assert_eq!(t, s.parse::<AbiType>().unwrap());
    }
}

#[test]
fn test_tuple_content_splitter() {
    let segments = parse_tuple_content("uint32,(uint32,uint32),bool").unwrap();
    assert_eq!(
        vec![
            "uint32".to_owned(),
            "(uint32,uint32)".to_owned(),
            "bool".to_owned()
        ],
        segments
    );
    assert_eq!(Vec::<String>::new(), parse_tuple_content("").unwrap());
}

#[test]
fn test_tuple_content_splitter_rejects_bad_commas() {
    assert!(parse_tuple_content(",uint32").is_err());
    assert!(parse_tuple_content("uint32,").is_err());
    assert!(parse_tuple_content("uint32,,bool").is_err());
    assert!(parse_tuple_content("(uint32,bool").is_err());
    assert!(parse_tuple_content("uint32)").is_err());
}

#[test]
fn test_tuple_content_splitter_rejects_nested_double_comma() {
    assert!(parse_tuple_content("(a,,b)").is_err());
    assert!(parse_tuple_content("uint32,(a,,b)").is_err());
    assert!(parse_tuple_content("((x,,y),bool)").is_err());
}

#[test]
fn test_make_uint_type_validates_range() {
    assert!(make_uint_type(8).is_ok());
    assert!(make_uint_type(512).is_ok());
    assert!(make_uint_type(0).is_err());
    assert!(make_uint_type(7).is_err());
    assert!(make_uint_type(12).is_err());
    assert!(make_uint_type(520).is_err());
}

#[test]
fn test_make_ufixed_type_validates_range() {
    assert!(make_ufixed_type(8, 1).is_ok());
    assert!(make_ufixed_type(512, 160).is_ok());
    assert!(make_ufixed_type(9, 10).is_err());
    assert!(make_ufixed_type(8, 0).is_err());
    assert!(make_ufixed_type(8, 161).is_err());
}

#[test]
fn test_make_tuple_type_accepts_empty() {
    let empty = algonaut_abi::make_tuple_type(vec![]).unwrap();
    assert_eq!("()", empty.string().unwrap());
    assert_eq!("()".parse::<AbiType>().unwrap(), empty);
    let uint8 = make_uint_type(8).unwrap();
    assert!(algonaut_abi::make_tuple_type(vec![uint8]).is_ok());
}

#[test]
fn test_serializer_output() {
    assert_eq!(
        "uint8[2]",
        make_static_array_type(make_uint_type(8).unwrap(), 2)
            .string()
            .unwrap()
    );
    assert_eq!(
        "ufixed64x4[]",
        make_dynamic_array_type(make_ufixed_type(64, 4).unwrap())
            .string()
            .unwrap()
    );
    assert_eq!(
        "(bool,address)",
        algonaut_abi::make_tuple_type(vec![
            "bool".parse::<AbiType>().unwrap(),
            "address".parse::<AbiType>().unwrap(),
        ])
        .unwrap()
        .string()
        .unwrap()
    );
}
