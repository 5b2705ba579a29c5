use iphone_organizer::Config;
use iphone_organizer::ConfigError;

#[test]
fn config_builds() {
    let args = vec![
        String::from("program_name"),
        String::from("mockSOURCE_lib"),
        String::from("mockDESTINATION_lib"),
        String::from("-l"),
        String::from("-o"),
    ];
    let config = match Config::build(args) {
        Ok(config) => config,
        Err(error) => panic!("Failed to build `Config`: {}", error.message()),
    };

    assert_eq!(String::from("mockSOURCE_lib"), config.source);
    assert_eq!(String::from("mockDESTINATION_lib"), config.destination);
    assert_eq!(true, config.lean);
    assert_eq!(true, config.override_present);
}

#[test]
fn config_long_flags_build() {
    let args = vec![
        String::from("program_name"),
        String::from("src"),
        String::from("dst"),
        String::from("--lean"),
        String::from("--override"),
    ];
    let config = Config::build(args).expect("long flags should be recognized");
    assert!(config.lean);
    assert!(config.override_present);
}

#[test]
fn config_last_override_flag_wins() {
    let args = vec![
        String::from("program_name"),
        String::from("src"),
        String::from("dst"),
        String::from("-o"),
        String::from("-s"),
    ];
    let config = Config::build(args).expect("flags should be recognized");
    assert!(!config.override_present);
    assert!(!config.lean);
}

#[test]
fn config_missing_source() {
    let args = vec![String::from("program_name")];
    let error = Config::build(args).err().expect("source is missing");
    assert!(matches!(error, ConfigError::MissingSource));
    assert_eq!(error.message(), String::from("Didn't get a source directory"));
}

#[test]
fn config_missing_destination() {
    let args = vec![String::from("program_name"), String::from("src")];
    let error = Config::build(args).err().expect("destination is missing");
    assert!(matches!(error, ConfigError::MissingDestination));
    assert_eq!(error.message(), String::from("Didn't get a destination directory"));
}

#[test]
fn config_unknown_option() {
    let args = vec![
        String::from("program_name"),
        String::from("src"),
        String::from("dst"),
        String::from("-x"),
    ];
    let error = Config::build(args).err().expect("the flag is unknown");
    match &error {
        ConfigError::UnknownOption(flag) => assert_eq!(flag.as_str(), "-x"),
        other => panic!("expected an unknown-option error, got {:?}", other),
    }
    assert_eq!(error.message(), String::from("Unknown option: `-x`"));
}
