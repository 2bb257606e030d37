use respkv::set::{KeyExistence, KeyExpiry, SetArgs, parse_set_arguments};
use respkv::storage_result::StorageError;

#[test]
fn test_parse_nx() {
    let commands: Vec<String> = vec![String::from("NX")];

    let args = parse_set_arguments(&commands).unwrap();

    assert_eq!(args.existence, Some(KeyExistence::NX));
}

#[test]
fn test_parse_nx_lowercase() {
    let commands: Vec<String> = vec![String::from("nx")];

    let args = parse_set_arguments(&commands).unwrap();

    assert_eq!(args.existence, Some(KeyExistence::NX));
}

#[test]
fn test_parse_xx() {
    let commands: Vec<String> = vec![String::from("XX")];

    let args = parse_set_arguments(&commands).unwrap();

    assert_eq!(args.existence, Some(KeyExistence::XX));
}

#[test]
fn test_parse_xx_and_nx() {
    let commands: Vec<String> = vec![String::from("XX"), String::from("NX")];

    assert!(matches!(
        parse_set_arguments(&commands),
        Err(StorageError::CommandSyntaxError(_))
    ));
}

#[test]
fn test_parse_nx_and_xx() {
    let commands: Vec<String> = vec![String::from("NX"), String::from("XX")];

    assert!(matches!(
        parse_set_arguments(&commands),
        Err(StorageError::CommandSyntaxError(_))
    ));
}

#[test]
fn test_parse_get() {
    let commands: Vec<String> = vec![String::from("GET")];

    let args = parse_set_arguments(&commands).unwrap();

    assert!(args.get);
}

#[test]
fn test_parse_nx_and_get() {
    let commands: Vec<String> = vec![String::from("NX"), String::from("GET")];

    let args = parse_set_arguments(&commands).unwrap();

    assert_eq!(
        args,
        SetArgs {
            existence: Some(KeyExistence::NX),
            expiry: None,
            get: true
        }
    );
}

#[test]
fn test_parse_xx_and_get() {
    let commands: Vec<String> = vec![String::from("XX"), String::from("GET")];

    let args = parse_set_arguments(&commands).unwrap();

    assert_eq!(
        args,
        SetArgs {
            existence: Some(KeyExistence::XX),
            expiry: None,
            get: true
        }
    );
}

#[test]
fn test_parse_ex() {
    let commands: Vec<String> = vec![String::from("EX"), String::from("100")];

    let args = parse_set_arguments(&commands).unwrap();

    assert_eq!(args.expiry, Some(KeyExpiry::EX(100)));
}

#[test]
fn test_parse_ex_wrong_value() {
    let commands: Vec<String> = vec![String::from("EX"), String::from("value")];

    assert!(matches!(
        parse_set_arguments(&commands),
        Err(StorageError::CommandSyntaxError(_))
    ));
}

#[test]
fn test_parse_ex_end_of_vector() {
    let commands: Vec<String> = vec![String::from("EX")];

    assert!(matches!(
        parse_set_arguments(&commands),
        Err(StorageError::CommandSyntaxError(_))
    ));
}

#[test]
fn test_parse_px() {
    let commands: Vec<String> = vec![String::from("PX"), String::from("100")];

    let args = parse_set_arguments(&commands).unwrap();

    assert_eq!(args.expiry, Some(KeyExpiry::PX(100)));
}

#[test]
fn test_parse_px_wrong_value() {
    let commands: Vec<String> = vec![String::from("PX"), String::from("value")];

    assert!(matches!(
        parse_set_arguments(&commands),
        Err(StorageError::CommandSyntaxError(_))
    ));
}

#[test]
fn test_parse_px_end_of_vector() {
    let commands: Vec<String> = vec![String::from("PX")];

    assert!(matches!(
        parse_set_arguments(&commands),
        Err(StorageError::CommandSyntaxError(_))
    ));
}

#[test]
fn test_parse_ex_and_px() {
    let commands: Vec<String> = vec![
        String::from("EX"),
        String::from("100"),
        String::from("PX"),
        String::from("100"),
    ];

    assert!(matches!(
        parse_set_arguments(&commands),
        Err(StorageError::CommandSyntaxError(_))
    ));
}

#[test]
fn test_parse_empty_arguments() {
    let commands: Vec<String> = vec![];

    let args = parse_set_arguments(&commands).unwrap();

    assert_eq!(
        args,
        SetArgs {
            existence: None,
            expiry: None,
            get: false
        }
    );
}

#[test]
fn test_parse_get_repeated() {
    let commands: Vec<String> = vec![String::from("GET"), String::from("get")];

    let args = parse_set_arguments(&commands).unwrap();

    assert!(args.get);
    assert_eq!(args.existence, None);
    assert_eq!(args.expiry, None);
}

#[test]
fn test_parse_unknown_token() {
    let commands: Vec<String> = vec![String::from("FROB")];

    match parse_set_arguments(&commands) {
        Err(StorageError::CommandSyntaxError(s)) => assert_eq!(s, "FROB"),
        _ => panic!(),
    }
}

#[test]
fn test_syntax_error_joins_arguments() {
    let commands: Vec<String> = vec![String::from("NX"), String::from("XX"), String::from("GET")];

    match parse_set_arguments(&commands) {
        Err(StorageError::CommandSyntaxError(s)) => assert_eq!(s, "NX XX GET"),
        _ => panic!(),
    }
}

#[test]
fn test_parse_ex_then_nx() {
    let commands: Vec<String> = vec![
        String::from("ex"),
        String::from("7"),
        String::from("nx"),
    ];

    let args = parse_set_arguments(&commands).unwrap();

    assert_eq!(args.expiry, Some(KeyExpiry::EX(7)));
    assert_eq!(args.existence, Some(KeyExistence::NX));
    assert!(!args.get);
}
