use kobo_core::config::{
    asar_library_path, gps_path, resolve, vanilla_rom_path, Config, ConfigError,
};

#[test]
fn the_variable_comes_before_the_file() {
    let mut config = Config::default();
    config.roms.smw = Some("/roms/smw.sfc".to_string());
    assert_eq!(
        vanilla_rom_path(Some("/env/smw.sfc".to_string()), Ok(config.clone())),
        Ok("/env/smw.sfc".to_string())
    );
    assert_eq!(
        vanilla_rom_path(Some(String::new()), Ok(config.clone())),
        Ok("/roms/smw.sfc".to_string())
    );
    assert_eq!(vanilla_rom_path(None, Ok(config.clone())), Ok("/roms/smw.sfc".to_string()));
    assert_eq!(asar_library_path(None, Ok(config)), Err(ConfigError::NoAsar));
}

#[test]
fn an_unreadable_file_matters_only_without_the_variable() {
    let broken = ConfigError::Parse {
        path: "config.toml".to_string(),
        message: "bad".to_string(),
    };
    assert_eq!(gps_path(None, Err(broken.clone())), Err(broken.clone()));
    assert_eq!(gps_path(Some("/gps".to_string()), Err(broken)), Ok("/gps".to_string()));
    assert_eq!(resolve(None, Ok(None), ConfigError::NoGps), Err(ConfigError::NoGps));
}
