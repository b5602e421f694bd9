use hyperon_core::environment::{ConfigDir, EnvBuilder, EnvInitState, EnvSetup};

#[test]
fn setup_goes_from_start_to_finish() {
    let mut setup = EnvSetup::new();
    assert_eq!(setup.state(), EnvInitState::Uninitialized);
    assert!(!setup.can_take(EnvInitState::InProcess));

    setup.init_start();
    assert_eq!(setup.state(), EnvInitState::InProcess);
    assert!(setup.can_take(EnvInitState::InProcess));

    let builder = setup.take_current_builder(EnvInitState::InProcess);
    let builder = builder.set_working_dir(Some("work".to_string()));
    setup.replace_current_builder(EnvInitState::InProcess, Some(builder));

    let options = setup.init_finish();
    assert_eq!(setup.state(), EnvInitState::Finished);
    assert!(!setup.can_take(EnvInitState::Finished));
    assert_eq!(options.working_dir(), &Some("work".to_string()));
}

#[test]
fn default_state_is_uninitialized() {
    assert_eq!(EnvInitState::default(), EnvInitState::Uninitialized);
}

#[test]
fn options_start_with_the_platform_directory() {
    let builder = EnvBuilder::new();
    assert_eq!(builder.working_dir(), &None);
    assert!(matches!(builder.config_dir(), ConfigDir::Platform));
    assert_eq!(builder.search_order(), Vec::<String>::new());
}

#[test]
fn config_dir_can_be_set_and_disabled() {
    let builder = EnvBuilder::new().set_config_dir("settings".to_string());
    assert!(matches!(builder.config_dir(), ConfigDir::Path(p) if p == "settings"));
    let builder = builder.set_no_config_dir();
    assert!(matches!(builder.config_dir(), ConfigDir::Disabled));
}

#[test]
fn working_dir_can_be_unset() {
    let builder = EnvBuilder::new().set_working_dir(Some("work".to_string()));
    let builder = builder.set_working_dir(None);
    assert_eq!(builder.working_dir(), &None);
}

#[test]
fn include_paths_are_searched_latest_first() {
    let builder = EnvBuilder::new()
        .add_include_path("first".to_string())
        .add_include_path("second".to_string())
        .add_include_path("third".to_string());
    assert_eq!(
        builder.search_order(),
        vec!["third".to_string(), "second".to_string(), "first".to_string()]
    );
}
