use bgawk::ConfigPlugin;

#[test]
fn config_file_location() {
    let plugin = ConfigPlugin;
    assert_eq!(plugin.config_prefix(), "bgawk");
    assert_eq!(plugin.config_file_name(), "config.toml");
}
