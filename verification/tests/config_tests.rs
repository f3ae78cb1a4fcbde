use pithy::config::{
    config_info, config_or_defaults, config_path_from, config_path_in, default_auto_update_links,
    default_daily_dir, default_daily_format, default_editor_font_family, default_editor_font_size,
    default_editor_line_height_bits, default_status_bar_bool, default_theme_dark,
    default_theme_light, default_theme_mode, default_vault_dir, default_version, expand_tilde,
    finish_resolve, join_warnings, resolve_settings, theme_css_from_file, theme_source,
    themes_dir_for, Config, DailyConfig, EditorConfig, StatusBarConfig, ThemeConfig, ThemeSource,
    VaultConfig, DEFAULT_DARK_CSS, DEFAULT_LIGHT_CSS, DEFAULT_TEMPLATE,
};

/// Resolves a theme as the loader does, with `read` standing for what reading the theme file
/// gives.
fn resolve_theme_css(
    name: &str,
    themes_dir: &str,
    read: Option<&str>,
    warnings: &mut Vec<String>,
    fallback_builtin: &str,
) -> String {
    match theme_source(name, themes_dir) {
        ThemeSource::Builtin(css) => css,
        ThemeSource::File(path) => theme_css_from_file(
            name,
            &path,
            read.map(|s| s.to_string()),
            warnings,
            fallback_builtin,
        ),
    }
}

fn config_with(vault_dir: &str, mode: &str, light: &str) -> Config {
    let mut c = Config::default();
    c.vault.dir = vault_dir.to_string();
    c.theme.mode = mode.to_string();
    c.theme.light = light.to_string();
    c
}

#[test]
fn tilde_expansion_home_only() {
    assert_eq!(expand_tilde("~", "/Users/test"), "/Users/test");
}

#[test]
fn tilde_expansion_with_subpath() {
    assert_eq!(
        expand_tilde("~/Documents/Pithy", "/Users/test"),
        "/Users/test/Documents/Pithy"
    );
}

#[test]
fn tilde_expansion_no_tilde() {
    assert_eq!(expand_tilde("/absolute/path", "/Users/test"), "/absolute/path");
}

#[test]
fn tilde_expansion_tilde_not_at_start() {
    assert_eq!(expand_tilde("foo/~/bar", "/Users/test"), "foo/~/bar");
}

#[test]
fn tilde_expansion_other_user_is_kept() {
    assert_eq!(expand_tilde("~bob/notes", "/Users/test"), "~bob/notes");
    assert_eq!(expand_tilde("~/", "/Users/test"), "/Users/test/");
}

#[test]
fn config_path_returns_correct_path() {
    let path = config_path_in("/Users/test");
    assert!(path.ends_with(".config/pithy/config.toml"));
    assert_eq!(path, "/Users/test/.config/pithy/config.toml");
}

#[test]
fn config_path_needs_a_home() {
    assert_eq!(
        config_path_from(None).unwrap_err(),
        "HOME environment variable not set"
    );
    assert_eq!(
        config_path_from(Some("/home/user".to_string())).unwrap(),
        "/home/user/.config/pithy/config.toml"
    );
}

#[test]
fn daily_config_defaults() {
    let daily = DailyConfig::default();
    assert_eq!(daily.dir, "daily");
    assert_eq!(daily.format, "YYYY-MM-DD");
}

#[test]
fn default_values_of_every_setting() {
    assert!(default_status_bar_bool());
    assert!(default_auto_update_links());
    assert_eq!(default_daily_dir(), "daily");
    assert_eq!(default_daily_format(), "YYYY-MM-DD");
    assert_eq!(default_theme_mode(), "auto");
    assert_eq!(default_theme_light(), "default-light");
    assert_eq!(default_theme_dark(), "default-dark");
    assert_eq!(default_version(), 1);
    assert_eq!(default_vault_dir(), "~/Documents/Pithy");
    assert_eq!(default_editor_font_size(), 15);
    assert_eq!(
        default_editor_font_family(),
        "-apple-system, BlinkMacSystemFont, \"SF Pro Text\", system-ui, sans-serif"
    );
    assert_eq!(f64::from_bits(default_editor_line_height_bits()), 1.7);
    let e = EditorConfig::default();
    assert_eq!(e.font_size, 15);
    assert_eq!(f64::from_bits(e.line_height_bits), 1.7);
    assert_eq!(VaultConfig::default().dir, "~/Documents/Pithy");
    let t = ThemeConfig::default();
    assert_eq!((t.mode.as_str(), t.light.as_str(), t.dark.as_str()), ("auto", "default-light", "default-dark"));
}

#[test]
fn default_template_contains_theme_section() {
    assert!(DEFAULT_TEMPLATE.contains("[theme]"));
    assert!(DEFAULT_TEMPLATE.contains("mode = \"auto\""));
}

#[test]
fn status_bar_defaults_all_true() {
    let sb = StatusBarConfig::default();
    assert!(sb.show);
    assert!(sb.show_backlinks);
    assert!(sb.show_word_count);
}

#[test]
fn default_template_contains_status_bar_section() {
    assert!(DEFAULT_TEMPLATE.contains("[status-bar]"));
    assert!(DEFAULT_TEMPLATE.contains("show = true"));
}

#[test]
fn resolve_builtin_light_theme() {
    let mut warnings = Vec::new();
    let css = resolve_theme_css("default-light", "/tmp/themes", None, &mut warnings, "default-light");
    assert!(css.contains("--editor-bg: #ffffff"));
    assert!(warnings.is_empty());
}

#[test]
fn resolve_builtin_dark_theme() {
    let mut warnings = Vec::new();
    let css = resolve_theme_css("default-dark", "/tmp/themes", None, &mut warnings, "default-dark");
    assert!(css.contains("--editor-bg: #1c1c1e"));
    assert!(warnings.is_empty());
}

#[test]
fn resolve_custom_theme_file() {
    let source = theme_source("github", "/cfg/themes");
    assert!(matches!(&source, ThemeSource::File(p) if p == "/cfg/themes/github.css"));
    let mut warnings = Vec::new();
    let css = resolve_theme_css(
        "github",
        "/cfg/themes",
        Some(":root { --editor-bg: #fff; }"),
        &mut warnings,
        "default-light",
    );
    assert!(css.contains("--editor-bg: #fff"));
    assert!(warnings.is_empty());
}

#[test]
fn resolve_custom_theme_with_css_extension() {
    let source = theme_source("github.css", "/cfg/themes");
    assert!(matches!(&source, ThemeSource::File(p) if p == "/cfg/themes/github.css"));
    let source = theme_source("a.css.css", "/cfg/themes");
    assert!(matches!(&source, ThemeSource::File(p) if p == "/cfg/themes/a.css.css"));
}

#[test]
fn resolve_missing_theme_falls_back_with_warning() {
    let mut warnings = Vec::new();
    let css = resolve_theme_css("nonexistent", "/cfg/themes", None, &mut warnings, "default-dark");
    assert_eq!(css, DEFAULT_DARK_CSS);
    assert_eq!(warnings.len(), 1);
    assert!(warnings[0].contains("not found"));
    assert_eq!(
        warnings[0],
        "Theme \"nonexistent\" not found (looked for /cfg/themes/nonexistent.css), using built-in"
    );
    let css = resolve_theme_css("gone", "/cfg/themes", None, &mut warnings, "default-light");
    assert_eq!(css, DEFAULT_LIGHT_CSS);
    assert_eq!(warnings.len(), 2);
}

#[test]
fn themes_dir_beside_config() {
    assert_eq!(themes_dir_for("/home/u/.config/pithy"), "/home/u/.config/pithy/themes");
}

#[test]
fn invalid_theme_mode_warns_and_defaults_to_auto() {
    let (config, warnings) = config_or_defaults(Ok(config_with("~/Notes", "invalid", "default-light")));
    let draft = resolve_settings(config, warnings, "/home/user").unwrap();
    assert_eq!(draft.theme_mode, "auto");
    assert_eq!(draft.warnings.len(), 1);
    assert!(draft.warnings[0].contains("Invalid theme mode"));
    assert_eq!(
        draft.warnings[0],
        "Invalid theme mode \"invalid\" (expected auto, light, or dark), using auto"
    );
}

#[test]
fn valid_theme_modes_are_kept() {
    for mode in ["auto", "light", "dark"] {
        let draft = resolve_settings(config_with("/v", mode, "default-light"), Vec::new(), "/h").unwrap();
        assert_eq!(draft.theme_mode, mode);
        assert!(draft.warnings.is_empty());
    }
}

#[test]
fn default_config_has_default_themes() {
    let (config, warnings) = config_or_defaults(Ok(Config::default()));
    let draft = resolve_settings(config, warnings, "/Users/test").unwrap();
    assert_eq!(draft.vault_dir, "/Users/test/Documents/Pithy");
    let mut warnings = Vec::new();
    let light = resolve_theme_css(&draft.theme_light, "/t", None, &mut warnings, "default-light");
    let dark = resolve_theme_css(&draft.theme_dark, "/t", None, &mut warnings, "default-dark");
    assert!(warnings.is_empty());
    assert_eq!(draft.theme_mode, "auto");
    assert!(light.contains("--editor-bg: #ffffff"));
    assert!(dark.contains("--editor-bg: #1c1c1e"));
}

#[test]
fn invalid_config_falls_back_with_warning() {
    let (config, warnings) = config_or_defaults(Err("expected `]`".to_string()));
    assert_eq!(config.vault.dir, "~/Documents/Pithy");
    assert_eq!(warnings.len(), 1);
    assert!(warnings[0].contains("Failed to parse config"));
    assert_eq!(warnings[0], "Failed to parse config (using defaults): expected `]`");
}

#[test]
fn relative_vault_dir_is_refused() {
    let r = resolve_settings(config_with("relative/path", "auto", "default-light"), Vec::new(), "/Users/test");
    let e = r.err().unwrap();
    assert!(e.contains("absolute path"));
    assert_eq!(e, "Vault directory must be an absolute path (got: relative/path)");
}

#[test]
fn font_size_out_of_range_falls_back() {
    let mut c = config_with("/v", "auto", "default-light");
    c.editor.font_size = 7;
    assert_eq!(resolve_settings(c, Vec::new(), "/h").unwrap().editor.font_size, 15);
    let mut c = config_with("/v", "auto", "default-light");
    c.editor.font_size = 49;
    assert_eq!(resolve_settings(c, Vec::new(), "/h").unwrap().editor.font_size, 15);
    let mut c = config_with("/v", "auto", "default-light");
    c.editor.font_size = 48;
    assert_eq!(resolve_settings(c, Vec::new(), "/h").unwrap().editor.font_size, 48);
    let mut c = config_with("/v", "auto", "default-light");
    c.editor.font_size = 8;
    assert_eq!(resolve_settings(c, Vec::new(), "/h").unwrap().editor.font_size, 8);
}

#[test]
fn warnings_are_joined() {
    assert_eq!(join_warnings(&vec![]), "");
    assert_eq!(join_warnings(&vec!["a".to_string()]), "a");
    assert_eq!(join_warnings(&vec!["a".to_string(), "b".to_string(), "c".to_string()]), "a; b; c");
}

#[test]
fn custom_theme_in_config() {
    let config = config_with("~/Notes", "light", "solarized");
    let draft = resolve_settings(config, Vec::new(), "/home/user").unwrap();
    assert_eq!(draft.theme_mode, "light");
    let mut warnings = draft.warnings.clone();
    let light = resolve_theme_css(
        &draft.theme_light,
        "/home/user/.config/pithy/themes",
        Some(":root { --editor-bg: #fdf6e3; }"),
        &mut warnings,
        "default-light",
    );
    let dark = resolve_theme_css(&draft.theme_dark, "/t", None, &mut warnings, "default-dark");
    let (resolved, warning) = finish_resolve(draft_with_warnings(draft, warnings), "/c/config.toml", light, dark);
    assert!(warning.is_none());
    assert_eq!(resolved.theme_mode, "light");
    assert!(resolved.theme_light_css.contains("--editor-bg: #fdf6e3"));
    assert_eq!(resolved.vault_dir, "/home/user/Notes");
    assert_eq!(resolved.vault_dir_raw, "~/Notes");
    assert_eq!(resolved.config_path, "/c/config.toml");
}

fn draft_with_warnings(
    mut d: pithy::config::ConfigDraft,
    warnings: Vec<String>,
) -> pithy::config::ConfigDraft {
    d.warnings = warnings;
    d
}

#[test]
fn resolved_warning_and_info() {
    let config = config_with("~/Notes", "sepia", "default-light");
    let draft = resolve_settings(config, vec!["first".to_string()], "/home/user").unwrap();
    let (resolved, warning) = finish_resolve(
        draft,
        "/c/config.toml",
        DEFAULT_LIGHT_CSS.to_string(),
        DEFAULT_DARK_CSS.to_string(),
    );
    assert_eq!(
        warning.as_deref(),
        Some("first; Invalid theme mode \"sepia\" (expected auto, light, or dark), using auto")
    );
    let info = config_info(&resolved, &warning);
    assert_eq!(info.config_path, "/c/config.toml");
    assert_eq!(info.vault_dir, "/home/user/Notes");
    assert_eq!(info.vault_dir_display, "~/Notes");
    assert_eq!(info.warning, warning);
    assert_eq!(info.editor.font_size, 15);
    assert_eq!(f64::from_bits(info.editor.line_height_bits), 1.7);
    assert_eq!(info.theme.mode, "auto");
    assert_eq!(info.daily.dir, "daily");
    assert_eq!(info.daily.format, "YYYY-MM-DD");
    assert!(info.auto_update_links);
    assert!(info.status_bar.show && info.status_bar.show_backlinks && info.status_bar.show_word_count);
}
