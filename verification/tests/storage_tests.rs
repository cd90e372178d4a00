use khmerime::storage::{
    flag_value, palette_or_default, stored_flag, stored_font_size, theme_or_default, Palette, Theme,
};

#[test]
fn explicit_themes_map_to_data_attributes() {
    assert_eq!(Theme::Light.data_attr(), Some("light"));
    assert_eq!(Theme::Dark.data_attr(), Some("dark"));
}

#[test]
fn palettes_map_to_independent_root_attributes() {
    assert_eq!(Palette::Default.data_attr(), None);
    assert_eq!(Palette::Angkor.data_attr(), Some("angkor"));
    assert_eq!(Palette::Lotus.data_attr(), Some("lotus"));
    assert_eq!(Palette::Forest.data_attr(), Some("forest"));
}

#[test]
fn stored_keys_read_back() {
    for theme in [Theme::Light, Theme::Dark] {
        assert_eq!(Theme::from_storage_key(theme.storage_key()), Some(theme));
    }
    for palette in [Palette::Default, Palette::Angkor, Palette::Lotus, Palette::Forest] {
        assert_eq!(Palette::from_storage_key(palette.storage_key()), Some(palette));
    }
    assert_eq!(Palette::Default.storage_key(), "default");
    assert_eq!(Theme::from_storage_key("Dark"), None);
    assert_eq!(Palette::from_storage_key(""), None);
    assert_eq!(Palette::default(), Palette::Default);
}

#[test]
fn missing_or_unknown_settings_fall_back() {
    assert_eq!(theme_or_default(None), Theme::Light);
    assert_eq!(theme_or_default(Some("dark")), Theme::Dark);
    assert_eq!(theme_or_default(Some("dim")), Theme::Light);
    assert_eq!(palette_or_default(Some("lotus")), Palette::Lotus);
    assert_eq!(palette_or_default(Some("teal")), Palette::Default);
}

#[test]
fn flags_are_on_unless_zero() {
    assert!(stored_flag(Some("1"), false));
    assert!(stored_flag(Some("yes"), false));
    assert!(!stored_flag(Some("0"), true));
    assert!(stored_flag(None, true));
    assert!(!stored_flag(None, false));
    assert_eq!(flag_value(true), "1");
    assert_eq!(flag_value(false), "0");
}

#[test]
fn font_size_is_clamped_or_defaulted() {
    assert_eq!(stored_font_size(Some("18"), 12, 32, 20), 18);
    assert_eq!(stored_font_size(Some("8"), 12, 32, 20), 12);
    assert_eq!(stored_font_size(Some("+99"), 12, 32, 20), 32);
    assert_eq!(stored_font_size(Some("big"), 12, 32, 20), 20);
    assert_eq!(stored_font_size(Some(" 18"), 12, 32, 20), 20);
    assert_eq!(stored_font_size(None, 12, 32, 20), 20);
}
