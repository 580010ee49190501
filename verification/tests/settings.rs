use evm_extractor::number::NumberError;
use evm_extractor::settings::{get_arg, read_settings, Fallbacks, Settings, SettingsError};

fn args(items: &[&str]) -> Vec<String> {
    items.iter().map(|item| item.to_string()).collect()
}

fn nothing() -> Fallbacks {
    Fallbacks { chain: None, start_block: None, end_block: None }
}

fn read(items: &[&str]) -> Result<(String, u64, u64), SettingsError> {
    read_settings(&args(items), nothing())
        .map(|Settings { chain, start_block, end_block }| (chain, start_block, end_block))
}

#[test]
fn the_value_stands_behind_the_name() {
    let list = args(&["program", "--chain", "base", "--chain", "bnb"]);
    assert_eq!(get_arg(&list, "--chain"), Some("base".to_string()));
    assert_eq!(get_arg(&list, "bnb"), None);
    assert_eq!(get_arg(&list, "program"), Some("--chain".to_string()));
    assert_eq!(get_arg(&list, "--other"), None);
    assert_eq!(get_arg(&[], "--chain"), None);
}

#[test]
fn a_name_at_the_end_has_no_value() {
    assert_eq!(get_arg(&args(&["program", "--chain"]), "--chain"), None);
    assert_eq!(
        get_arg(&args(&["program", "--chain", "--chain"]), "--chain"),
        Some("--chain".to_string())
    );
}

#[test]
fn settings_come_from_the_arguments() {
    let found = read(&["p", "--chain", "base", "--start-block", "5", "--end-block", "9"]);
    assert_eq!(found, Ok(("base".to_string(), 5, 9)));
    let found = read(&["p", "--start-block", "+5", "--end-block", "5"]);
    assert_eq!(found, Ok(("bnb".to_string(), 5, 5)));
}

#[test]
fn the_environment_stands_behind_the_arguments() {
    let fallbacks = Fallbacks {
        chain: Some("polygon".to_string()),
        start_block: Some("1".to_string()),
        end_block: Some("2".to_string()),
    };
    let found = read_settings(&args(&["p", "--end-block", "7"]), fallbacks).unwrap();
    assert_eq!((found.chain.as_str(), found.start_block, found.end_block), ("polygon", 1, 7));
}

#[test]
fn the_first_thing_that_is_wrong_is_reported() {
    assert_eq!(read(&["p"]), Err(SettingsError::MissingStartBlock));
    assert_eq!(read(&["p", "--end-block", "x"]), Err(SettingsError::MissingStartBlock));
    assert_eq!(
        read(&["p", "--start-block", ""]),
        Err(SettingsError::StartBlock(NumberError::Empty))
    );
    assert_eq!(read(&["p", "--start-block", "5"]), Err(SettingsError::MissingEndBlock));
    assert_eq!(
        read(&["p", "--start-block", "5", "--end-block", "0x9"]),
        Err(SettingsError::EndBlock(NumberError::InvalidDigit))
    );
    assert_eq!(
        read(&["p", "--start-block", "5", "--end-block", "18446744073709551616"]),
        Err(SettingsError::EndBlock(NumberError::Overflow))
    );
    assert_eq!(
        read(&["p", "--start-block", "5", "--end-block", "4"]),
        Err(SettingsError::StartAfterEnd)
    );
}

#[test]
fn errors_have_words() {
    let words = [
        (SettingsError::MissingStartBlock, "Missing --start-block"),
        (SettingsError::MissingEndBlock, "Missing --end-block"),
        (SettingsError::StartAfterEnd, "start-block cannot be greater than end-block"),
        (SettingsError::StartBlock(NumberError::Empty), "cannot parse integer from empty string"),
        (SettingsError::EndBlock(NumberError::InvalidDigit), "invalid digit found in string"),
        (SettingsError::EndBlock(NumberError::Overflow), "number too large to fit in target type"),
    ];
    for (error, text) in words {
        assert_eq!(error.message(), text);
    }
}
