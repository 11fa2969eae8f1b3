use sisko::settings::{read_settings, settings_body, settings_path, BaseDir, DirsSet, Platform};

#[test]
fn written_sizes_are_read_back() {
    let fonts = read_settings(&settings_body("14", "12.5"));
    assert_eq!(fonts.repl.as_deref(), Some("14"));
    assert_eq!(fonts.table.as_deref(), Some("12.5"));
    assert_eq!(settings_body("14", "12"), "repl_font_size=14\ntable_font_size=12\n");
}

#[test]
fn other_lines_are_passed_over() {
    let text = "# comment\nrepl_font_size = 11 \nrepl_font_size=big\nother=3\ntable_font_size=9=9\n";
    let fonts = read_settings(text);
    assert_eq!(fonts.repl.as_deref(), Some("11"));
    assert_eq!(fonts.table, None);
    let fonts = read_settings("table_font_size=9\r\ntable_font_size=10");
    assert_eq!(fonts.table.as_deref(), Some("10"));
}

#[test]
fn each_platform_has_its_place() {
    let none = DirsSet { home: false, user_profile: false, app_data: false, config_home: false };
    let all = DirsSet { home: true, user_profile: true, app_data: true, config_home: true };
    assert_eq!(
        settings_path(Platform::MacOs, all),
        (BaseDir::Home, "Library/Application Support/sisko/settings.ini")
    );
    assert_eq!(settings_path(Platform::Windows, all), (BaseDir::AppData, "sisko/settings.ini"));
    assert_eq!(settings_path(Platform::Other, all), (BaseDir::ConfigHome, "sisko/settings.ini"));
    assert_eq!(settings_path(Platform::Other, none), (BaseDir::Here, ".config/sisko/settings.ini"));
    let profile = DirsSet { user_profile: true, ..none };
    assert_eq!(settings_path(Platform::Windows, profile), (BaseDir::UserProfile, "sisko/settings.ini"));
}
