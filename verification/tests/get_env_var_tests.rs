use compress_wi_primes::get_env_var::{parse_bool_value, parse_u32_value, EnvVarFailure};

#[test]
pub fn test_parse_u32_value() {
    assert_eq!(parse_u32_value("55"), Ok(55));
    assert_eq!(parse_u32_value("0"), Ok(0));
    assert_eq!(parse_u32_value("+7"), Ok(7));
    assert_eq!(parse_u32_value("4294967295"), Ok(u32::MAX));
    assert_eq!(parse_u32_value("4294967296"), Err(EnvVarFailure::CouldNotParseVar));
    assert_eq!(parse_u32_value(""), Err(EnvVarFailure::CouldNotParseVar));
    assert_eq!(parse_u32_value("twelve"), Err(EnvVarFailure::CouldNotParseVar));
    assert_eq!(parse_u32_value("12a"), Err(EnvVarFailure::CouldNotParseVar));
}

#[test]
pub fn test_parse_u32_value_hex() {
    assert_eq!(parse_u32_value("0x37"), Ok(55));
    assert_eq!(parse_u32_value("0x0"), Ok(0));
    assert_eq!(parse_u32_value("0xFF"), Ok(255));
    assert_eq!(parse_u32_value("0xdeadBEEF"), Ok(0xdeadbeef));
    assert_eq!(parse_u32_value("0xffffffff"), Ok(u32::MAX));
    assert_eq!(parse_u32_value("0x100000000"), Err(EnvVarFailure::CouldNotParseVar));
    assert_eq!(parse_u32_value("0x"), Err(EnvVarFailure::CouldNotParseVar));
    assert_eq!(parse_u32_value("0xg1"), Err(EnvVarFailure::CouldNotParseVar));
}

#[test]
pub fn test_parse_bool_value() {
    assert_eq!(parse_bool_value("true"), Ok(true));
    assert_eq!(parse_bool_value("false"), Ok(false));
    assert_eq!(parse_bool_value("TRUE"), Err(EnvVarFailure::CouldNotParseVar));
    assert_eq!(parse_bool_value(""), Err(EnvVarFailure::CouldNotParseVar));
    assert_eq!(parse_bool_value("yes"), Err(EnvVarFailure::CouldNotParseVar));
}
