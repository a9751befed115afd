use algonaut_abi::abi_type::AbiType;
use algonaut_abi::interactions::{AbiArg, AbiMethod, AbiReturn, ReferenceArgType, TransactionArgType};

#[test]
fn test_method_from_signature() {
    let uint32_abi_type_res = "uint32".parse::<AbiType>();
    assert!(uint32_abi_type_res.is_ok());
    let uint32_abi_type = uint32_abi_type_res.clone().unwrap();

    let expected_args = vec![
        AbiArg {
            name: None,
            type_: "uint32".to_owned(),
            description: None,
            parsed: Some(uint32_abi_type.clone()),
        },
        AbiArg {
            name: None,
            type_: "uint32".to_owned(),
            description: None,
            parsed: Some(uint32_abi_type.clone()),
        },
    ];
    let expected = AbiMethod {
        name: "add".to_owned(),
        description: None,
        args: expected_args,
        returns: AbiReturn {
            type_: "uint32".to_owned(),
            description: None,
            parsed: Some(uint32_abi_type),
        },
    };

    let method_sig = "add(uint32,uint32)uint32";

    let result = AbiMethod::from_signature(method_sig);
    assert!(result.is_ok());
    let method = result.unwrap();

    assert_eq!(expected, method);
}

#[test]
fn test_method_from_signature_with_tuple() {
    let uint32_abi_type_res = "uint32".parse::<AbiType>();
    assert!(uint32_abi_type_res.is_ok());
    let uint32_abi_type = uint32_abi_type_res.clone().unwrap();

    let uint32_tuple_abi_type_res = "(uint32,uint32)".parse::<AbiType>();
    assert!(uint32_tuple_abi_type_res.is_ok());
    let uint32_tuple_abi_type = uint32_tuple_abi_type_res.clone().unwrap();

    let uint32_tuple_tuple_abi_type_res = "(uint32,(uint32,uint32))".parse::<AbiType>();
    assert!(uint32_tuple_tuple_abi_type_res.is_ok());
    let uint32_tuple_tuple_abi_type = uint32_tuple_tuple_abi_type_res.clone().unwrap();

    let expected_args = vec![
        AbiArg {
            name: None,
            type_: "(uint32,(uint32,uint32))".to_owned(),
            description: None,
            parsed: Some(uint32_tuple_tuple_abi_type.clone()),
        },
        AbiArg {
            name: None,
            type_: "uint32".to_owned(),
            description: None,
            parsed: Some(uint32_abi_type.clone()),
        },
    ];
    let expected = AbiMethod {
        name: "add".to_owned(),
        description: None,
        args: expected_args,
        returns: AbiReturn {
            type_: "(uint32,uint32)".to_owned(),
            description: None,
            parsed: Some(uint32_tuple_abi_type),
        },
    };

    let method_sig = "add((uint32,(uint32,uint32)),uint32)(uint32,uint32)";

    let result = AbiMethod::from_signature(method_sig);
    assert!(result.is_ok());
    let method = result.unwrap();

    assert_eq!(expected, method);
}

#[test]
fn test_method_from_signature_with_void_return() {
    let uint32_abi_type_res = "uint32".parse::<AbiType>();
    assert!(uint32_abi_type_res.is_ok());
    let uint32_abi_type = uint32_abi_type_res.clone().unwrap();

    let expected_args = vec![
        AbiArg {
            name: None,
            type_: "uint32".to_owned(),
            description: None,
            parsed: Some(uint32_abi_type.clone()),
        },
        AbiArg {
            name: None,
            type_: "uint32".to_owned(),
            description: None,
            parsed: Some(uint32_abi_type.clone()),
        },
    ];
    let expected = AbiMethod {
        name: "add".to_owned(),
        description: None,
        args: expected_args,
        returns: AbiReturn {
            type_: "void".to_owned(),
            description: None,
            parsed: None,
        },
    };

    let method_sig = "add(uint32,uint32)void";

    let result = AbiMethod::from_signature(method_sig);
    assert!(result.is_ok());
    let method = result.unwrap();

    assert_eq!(expected, method);
}

#[test]
fn test_method_from_signature_with_no_args() {
    let expected_args = vec![];
    let expected = AbiMethod {
        name: "add".to_owned(),
        description: None,
        args: expected_args,
        returns: AbiReturn {
            type_: "void".to_owned(),
            description: None,
            parsed: None,
        },
    };

    let method_sig = "add()void";

    let result = AbiMethod::from_signature(method_sig);
    assert!(result.is_ok());
    let method = result.unwrap();

    assert_eq!(expected, method);
}

#[test]
fn test_method_from_signature_invalid_format() {
    let method_sig = "add)uint32,uint32)uint32";
    let result = AbiMethod::from_signature(method_sig);
    assert!(result.is_err());

    let method_sig = "add(uint32, uint32)uint32";
    let result = AbiMethod::from_signature(method_sig);
    assert!(result.is_err());

    let method_sig = "(uint32,uint32)uint32";
    let result = AbiMethod::from_signature(method_sig);
    assert!(result.is_err());

    let method_sig = "add((uint32, uint32)uint32";
    let result = AbiMethod::from_signature(method_sig);
    assert!(result.is_err());
}

#[test]
fn test_method_from_signature_invalid_abi_type() {
    let method_sig = "add(uint32,uint32)int32";
    let result = AbiMethod::from_signature(method_sig);
    assert!(result.is_err());
}

#[test]
fn test_get_signature() {
    let args = vec![
        AbiArg {
            name: None,
            type_: "uint32".to_owned(),
            description: None,
            parsed: None,
        },
        AbiArg {
            name: None,
            type_: "uint32".to_owned(),
            description: None,
            parsed: None,
        },
    ];
    let method = AbiMethod {
        name: "add".to_owned(),
        description: None,
        args,
        returns: AbiReturn {
            type_: "uint32".to_owned(),
            description: None,
            parsed: None,
        },
    };

    let expected = "add(uint32,uint32)uint32";

    assert_eq!(expected, method.get_signature());
}

#[test]
fn test_get_selector() {
    let args = vec![
        AbiArg {
            name: None,
            type_: "uint32".to_owned(),
            description: None,
            parsed: None,
        },
        AbiArg {
            name: None,
            type_: "uint32".to_owned(),
            description: None,
            parsed: None,
        },
    ];
    let method = AbiMethod {
        name: "add".to_owned(),
        description: None,
        args,
        returns: AbiReturn {
            type_: "uint32".to_owned(),
            description: None,
            parsed: None,
        },
    };

    let expected = [0x3e, 0x1e, 0x52, 0xbd];

    let selector_res = method.get_selector();
    assert!(selector_res.is_ok());
    let selector = selector_res.unwrap();

    assert_eq!(expected, selector);
}

#[test]
fn test_signature_round_trip() {
    let sigs = [
        "add(uint32,uint32)uint32",
        "add()void",
        "transfer(address,uint64,Payment)bool",
        "nested((uint8,(bool,string)),byte[3][])(uint16,uint16)",
    ];
    for sig in sigs {
        let method = AbiMethod::from_signature(sig).unwrap();
        assert_eq!(sig, method.get_signature());
    }
}

#[test]
fn test_tx_count_no_transaction_args() {
    let method = AbiMethod::from_signature("add()void").unwrap();
    assert_eq!(1, method.get_tx_count());
}

#[test]
fn test_tx_count_with_transaction_arg() {
    let mut method = AbiMethod::from_signature("deposit(Payment,uint32)void").unwrap();
    assert_eq!(2, method.get_tx_count());
    assert!(method.args[0].get_type_object().is_err());
    assert!(method.args[1].get_type_object().is_ok());
}

#[test]
fn test_reference_arg_does_not_count_as_transaction() {
    let mut method =
        AbiMethod::from_signature("lookup(AssetReferenceType,uint64)void").unwrap();
    assert_eq!(1, method.get_tx_count());
    assert!(method.args[0].get_type_object().is_err());
}

#[test]
fn test_from_signature_rejects_mismatched_nested_parens() {
    assert!(AbiMethod::from_signature("f((uint8,(bool))uint8)void").is_err());
    assert!(AbiMethod::from_signature("f(uint8))void").is_err());
    assert!(AbiMethod::from_signature("f((uint8)void").is_err());
}

#[test]
fn test_keyword_parsers_map_to_variants() {
    assert_eq!(Ok(TransactionArgType::Any), TransactionArgType::from_api_str("Any"));
    assert_eq!(Ok(TransactionArgType::Payment), TransactionArgType::from_api_str("Payment"));
    assert_eq!(
        Ok(TransactionArgType::KeyRegistration),
        TransactionArgType::from_api_str("KeyRegistration")
    );
    assert_eq!(
        Ok(TransactionArgType::AssetConfig),
        TransactionArgType::from_api_str("AssetConfig")
    );
    assert_eq!(
        Ok(TransactionArgType::AssetTransfer),
        TransactionArgType::from_api_str("AssetTransfer")
    );
    assert_eq!(
        Ok(TransactionArgType::AssetFreeze),
        TransactionArgType::from_api_str("AssetFreeze")
    );
    assert_eq!(Ok(TransactionArgType::AppCall), TransactionArgType::from_api_str("AppCall"));
    assert!(TransactionArgType::from_api_str("payment").is_err());
    assert_eq!(
        Ok(ReferenceArgType::Account),
        ReferenceArgType::from_api_str("AccountReferenceType")
    );
    assert_eq!(
        Ok(ReferenceArgType::Asset),
        ReferenceArgType::from_api_str("AssetReferenceType")
    );
    assert_eq!(
        Ok(ReferenceArgType::Application),
        ReferenceArgType::from_api_str("ApplicationReferenceType")
    );
    assert!(ReferenceArgType::from_api_str("Account").is_err());
}

#[test]
fn test_void_return_has_no_type_object() {
    let method = AbiMethod::from_signature("add()void").unwrap();
    let mut ret = method.returns.clone();
    assert!(ret.get_type_object().is_err());
}
