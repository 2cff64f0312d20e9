use vault_backup::generator::{generate_password, generate_password_from, PasswordGeneratorOptions};

#[test]
fn test_generate_password_default() {
    let options = PasswordGeneratorOptions {
        length: Some(16),
        include_uppercase: Some(true),
        include_lowercase: Some(true),
        include_numbers: Some(true),
        include_symbols: Some(true),
    };

    let result = generate_password(&options);
    assert!(result.is_ok());

    let password = result.unwrap();
    assert_eq!(password.len(), 16);
}

#[test]
fn test_generate_password_length_limits() {
    let options = PasswordGeneratorOptions {
        length: Some(2),
        include_lowercase: Some(true),
        include_uppercase: None,
        include_numbers: None,
        include_symbols: None,
    };

    let result = generate_password(&options);
    assert!(result.is_ok());
    assert_eq!(result.unwrap().len(), 4);

    let options = PasswordGeneratorOptions {
        length: Some(200),
        include_lowercase: Some(true),
        include_uppercase: None,
        include_numbers: None,
        include_symbols: None,
    };

    let result = generate_password(&options);
    assert!(result.is_ok());
    assert_eq!(result.unwrap().len(), 128);
}

#[test]
fn test_generate_password_no_charset() {
    let options = PasswordGeneratorOptions {
        length: Some(16),
        include_uppercase: Some(false),
        include_lowercase: Some(false),
        include_numbers: Some(false),
        include_symbols: Some(false),
    };

    let result = generate_password(&options);
    assert!(result.is_err());
    assert_eq!(result.unwrap_err(), "至少需要选择一种字符类型");
}

#[test]
fn test_generate_password_only_uppercase() {
    let options = PasswordGeneratorOptions {
        length: Some(10),
        include_uppercase: Some(true),
        include_lowercase: Some(false),
        include_numbers: Some(false),
        include_symbols: Some(false),
    };

    let result = generate_password(&options);
    assert!(result.is_ok());

    let password = result.unwrap();
    assert_eq!(password.len(), 10);
    assert!(password.chars().all(|c| c.is_uppercase()));
}

#[test]
fn picks_select_characters() {
    let options = PasswordGeneratorOptions {
        length: None,
        include_uppercase: Some(false),
        include_lowercase: Some(false),
        include_numbers: Some(true),
        include_symbols: Some(false),
    };
    let picks: Vec<usize> = (0..16).collect();
    assert_eq!(generate_password_from(&options, &picks).unwrap(), "0123456789012345");
    let all = PasswordGeneratorOptions {
        length: Some(4),
        include_uppercase: None,
        include_lowercase: None,
        include_numbers: None,
        include_symbols: None,
    };
    // 26 + 26 + 10 + 26 = 88 characters: index 88 wraps to 0
    assert_eq!(generate_password_from(&all, &vec![0, 26, 52, 88]).unwrap(), "Aa0A");
}
