//! Configuration: defaults, and the rules that turn a parsed config file into the settings
//! the app runs with.
use vstd::prelude::*;

use crate::paths;
use crate::text;
use crate::text::{chars_of, owned, push_str, str_eq, string_of};

verus! {

/// The config file written on first launch.
pub const DEFAULT_TEMPLATE: &'static str = r#"# Pithy configuration
# This file is read on startup.
# After editing, restart Pithy to apply changes.
#
# Location: ~/.config/pithy/config.toml

version = 1

[vault]
# Directory where your markdown notes live.
# Use an absolute path. "~" expands to your home directory.
# Pithy will create the directory if it doesn't exist.
# Changing this requires restarting Pithy.
dir = "~/Documents/Pithy"

# Automatically update [[wikilinks]] in other notes when you rename a file.
# Set to false to be prompted before updating.
# auto-update-links = true

[editor]
# Font size in pixels for the editor body text.
# font-size = 15

# Font family (CSS font-family value).
# font-family = '-apple-system, BlinkMacSystemFont, "SF Pro Text", system-ui, sans-serif'

# Line height multiplier for editor text.
# line-height = 1.7

# [theme]
# Color theme mode: "auto" follows OS light/dark, "light" or "dark" forces one.
# mode = "auto"
#
# Theme names reference .css files in ~/.config/pithy/themes/
# Built-in themes: "default-light", "default-dark"
# light = "default-light"
# dark = "default-dark"

# [daily]
# Subdirectory for daily notes (relative to vault root).
# dir = "daily"
#
# Filename format for daily notes. Supports YYYY, MM, DD tokens.
# format = "YYYY-MM-DD"

# [status-bar]
# Show the info bar below the editor.
# show = true
#
# Show backlinks count in the info bar.
# show-backlinks = true
#
# Show word count in the info bar.
# show-word-count = true
"#;

/// The built-in light theme.
pub const DEFAULT_LIGHT_CSS: &'static str = r#":root {
  --editor-bg: #ffffff;
  --editor-text: #37352f;
  --editor-cursor: #37352f;
  --editor-selection: #d3e0f0;
  --accent-color: #2383e2;
  --dirty-color: #d9730d;
  --link-color: #2383e2;
  --error-color: #c4463a;
  --code-bg: rgba(135, 131, 120, 0.1);
  --code-block-bg: rgba(135, 131, 120, 0.04);
  --border-color: rgba(55, 53, 47, 0.16);
  --backdrop-color: rgba(15, 15, 15, 0.6);
  --shadow-color: rgba(15, 15, 15, 0.1);
  --tag-color: #2383e2;
  --tag-bg: rgba(35, 131, 226, 0.08);
}
"#;

/// The built-in dark theme.
pub const DEFAULT_DARK_CSS: &'static str = r#":root {
  --editor-bg: #1c1c1e;
  --editor-text: #d1d1d6;
  --editor-cursor: #e5e5ea;
  --editor-selection: #2c3a50;
  --accent-color: #5a9cf5;
  --dirty-color: #e09430;
  --link-color: #5a9cf5;
  --error-color: #e05545;
  --code-bg: rgba(180, 180, 195, 0.08);
  --code-block-bg: rgba(180, 180, 195, 0.04);
  --border-color: rgba(180, 180, 195, 0.15);
  --backdrop-color: rgba(0, 0, 0, 0.50);
  --shadow-color: rgba(0, 0, 0, 0.40);
  --tag-color: #5a9cf5;
  --tag-bg: rgba(90, 156, 245, 0.10);
}
"#;

// ---------------------------------------------------------------------------
// Defaults.
// ---------------------------------------------------------------------------

pub fn default_status_bar_bool() -> (r: bool)
    ensures
        r,
{
    true
}

pub fn default_auto_update_links() -> (r: bool)
    ensures
        r,
{
    true
}

pub fn default_daily_dir() -> (r: String)
    ensures
        r@ == "daily"@,
{
    owned("daily")
}

pub fn default_daily_format() -> (r: String)
    ensures
        r@ == "YYYY-MM-DD"@,
{
    owned("YYYY-MM-DD")
}

pub fn default_theme_mode() -> (r: String)
    ensures
        r@ == "auto"@,
{
    owned("auto")
}

pub fn default_theme_light() -> (r: String)
    ensures
        r@ == "default-light"@,
{
    owned("default-light")
}

pub fn default_theme_dark() -> (r: String)
    ensures
        r@ == "default-dark"@,
{
    owned("default-dark")
}

pub fn default_version() -> (r: u32)
    ensures
        r == 1,
{
    1
}

pub fn default_vault_dir() -> (r: String)
    ensures
        r@ == "~/Documents/Pithy"@,
{
    owned("~/Documents/Pithy")
}

pub fn default_editor_font_size() -> (r: u32)
    ensures
        r == 15,
{
    15
}

pub fn default_editor_font_family() -> (r: String)
    ensures
        r@ == "-apple-system, BlinkMacSystemFont, \"SF Pro Text\", system-ui, sans-serif"@,
{
    owned("-apple-system, BlinkMacSystemFont, \"SF Pro Text\", system-ui, sans-serif")
}

/// The IEEE-754 bit pattern of the default line-height multiplier, 1.7.
pub fn default_editor_line_height_bits() -> (r: u64)
    ensures
        r == 0x3FFB_3333_3333_3333,
{
    0x3FFB_3333_3333_3333
}

// ---------------------------------------------------------------------------
// The config file's sections.
// ---------------------------------------------------------------------------

pub struct StatusBarConfig {
    pub show: bool,
    pub show_backlinks: bool,
    pub show_word_count: bool,
}

impl Default for StatusBarConfig {
    fn default() -> (r: Self)
        ensures
            r.show && r.show_backlinks && r.show_word_count,
    {
        StatusBarConfig { show: true, show_backlinks: true, show_word_count: true }
    }
}

pub struct DailyConfig {
    pub dir: String,
    pub format: String,
}

impl Default for DailyConfig {
    fn default() -> (r: Self)
        ensures
            r.dir@ == "daily"@,
            r.format@ == "YYYY-MM-DD"@,
    {
        DailyConfig { dir: default_daily_dir(), format: default_daily_format() }
    }
}

pub struct ThemeConfig {
    pub mode: String,
    pub light: String,
    pub dark: String,
}

impl Default for ThemeConfig {
    fn default() -> (r: Self)
        ensures
            r.mode@ == "auto"@,
            r.light@ == "default-light"@,
            r.dark@ == "default-dark"@,
    {
        ThemeConfig {
            mode: default_theme_mode(),
            light: default_theme_light(),
            dark: default_theme_dark(),
        }
    }
}

pub struct VaultConfig {
    pub dir: String,
}

impl Default for VaultConfig {
    fn default() -> (r: Self)
        ensures
            r.dir@ == "~/Documents/Pithy"@,
    {
        VaultConfig { dir: default_vault_dir() }
    }
}

/// Editor settings. The line-height multiplier is carried as the bit pattern of its `f64`.
pub struct EditorConfig {
    pub font_size: u32,
    pub font_family: String,
    pub line_height_bits: u64,
}

impl Default for EditorConfig {
    fn default() -> (r: Self)
        ensures
            r.font_size == 15,
            r.font_family@ == "-apple-system, BlinkMacSystemFont, \"SF Pro Text\", system-ui, sans-serif"@,
            r.line_height_bits == 0x3FFB_3333_3333_3333,
    {
        EditorConfig {
            font_size: default_editor_font_size(),
            font_family: default_editor_font_family(),
            line_height_bits: default_editor_line_height_bits(),
        }
    }
}

/// The whole config file.
pub struct Config {
    pub version: u32,
    pub vault: VaultConfig,
    pub editor: EditorConfig,
    pub theme: ThemeConfig,
    pub daily: DailyConfig,
    pub auto_update_links: bool,
    pub status_bar: StatusBarConfig,
}

/// The defaults of every setting.
pub open spec fn is_default_config(c: Config) -> bool {
    &&& c.version == 1
    &&& c.vault.dir@ == "~/Documents/Pithy"@
    &&& c.editor.font_size == 15
    &&& c.editor.font_family@ == "-apple-system, BlinkMacSystemFont, \"SF Pro Text\", system-ui, sans-serif"@
    &&& c.editor.line_height_bits == 0x3FFB_3333_3333_3333
    &&& c.theme.mode@ == "auto"@
    &&& c.theme.light@ == "default-light"@
    &&& c.theme.dark@ == "default-dark"@
    &&& c.daily.dir@ == "daily"@
    &&& c.daily.format@ == "YYYY-MM-DD"@
    &&& c.auto_update_links
    &&& c.status_bar.show && c.status_bar.show_backlinks && c.status_bar.show_word_count
}

impl Default for Config {
    fn default() -> (r: Self)
        ensures
            is_default_config(r),
    {
        Config {
            version: default_version(),
            vault: VaultConfig::default(),
            editor: EditorConfig::default(),
            theme: ThemeConfig::default(),
            daily: DailyConfig::default(),
            auto_update_links: default_auto_update_links(),
            status_bar: StatusBarConfig::default(),
        }
    }
}

// ---------------------------------------------------------------------------
// Resolution.
// ---------------------------------------------------------------------------

/// `path` with a leading `~` (alone, or followed by `/`) replaced by `home`.
pub open spec fn tilde_expanded(path: Seq<char>, home: Seq<char>) -> Seq<char> {
    if path == seq!['~'] {
        home
    } else if path.len() >= 2 && path[0] == '~' && path[1] == '/' {
        home + seq!['/'] + path.subrange(2, path.len() as int)
    } else {
        path
    }
}

/// Expands a leading `~` to the home directory.
pub fn expand_tilde(path: &str, home: &str) -> (r: String)
    ensures
        r@ == tilde_expanded(path@, home@),
{
    let p = chars_of(path);
    if p.len() == 1 && p[0] == '~' {
        assert(path@ =~= seq!['~']);
        return owned(home);
    }
    proof {
        if path@ == seq!['~'] {
            assert(p@[0] == '~');
        }
    }
    if p.len() >= 2 && p[0] == '~' && p[1] == '/' {
        let mut out = owned(home);
        out.push('/');
        let rest = text::slice_chars(&p, 2, p.len());
        let rest_s = string_of(&rest);
        push_str(&mut out, rest_s.as_str());
        return out;
    }
    owned(path)
}

/// The text of the warning given when the config file does not parse.
pub open spec fn parse_warning(error: Seq<char>) -> Seq<char> {
    "Failed to parse config (using defaults): "@ + error
}

/// The config to resolve and the warnings so far: the parsed config, or, when the file did
/// not parse, the defaults and a warning that carries the parser's message.
pub fn config_or_defaults(parsed: Result<Config, String>) -> (r: (Config, Vec<String>))
    ensures
        match parsed {
            Ok(c) => r.0 == c && r.1@.len() == 0,
            Err(e) => is_default_config(r.0) && text::views(r.1@) == seq![parse_warning(e@)],
        },
{
    match parsed {
        Ok(c) => (c, Vec::new()),
        Err(e) => {
            let mut w = owned("Failed to parse config (using defaults): ");
            push_str(&mut w, e.as_str());
            let mut warnings: Vec<String> = Vec::new();
            warnings.push(w);
            assert(text::views(warnings@) =~= seq![parse_warning(e@)]);
            (Config::default(), warnings)
        },
    }
}

/// The text of the error given for a vault directory that is not absolute.
pub open spec fn relative_vault_error(dir: Seq<char>) -> Seq<char> {
    "Vault directory must be an absolute path (got: "@ + dir + ")"@
}

/// The text of the warning given for an unknown theme mode.
pub open spec fn theme_mode_warning(mode: Seq<char>) -> Seq<char> {
    "Invalid theme mode \""@ + mode + "\" (expected auto, light, or dark), using auto"@
}

/// A mode the theme accepts.
pub open spec fn valid_theme_mode(mode: Seq<char>) -> bool {
    mode == "auto"@ || mode == "light"@ || mode == "dark"@
}

/// The font size the editor uses: the configured one when it lies in 8..=48, else 15.
pub open spec fn clamped_font_size(size: u32) -> u32 {
    if 8 <= size <= 48 {
        size
    } else {
        15
    }
}

/// The font size the editor runs with always lies in 8..=48, and a size in that range is
/// kept.
pub proof fn lemma_font_size_in_range(size: u32)
    ensures
        8 <= clamped_font_size(size) <= 48,
        8 <= size <= 48 ==> clamped_font_size(size) == size,
{
}

/// The theme mode the app runs with is always exactly `auto`, `light` or `dark`, and it is the
/// configured mode only when that is exactly one of these three strings; any other mode
/// (`Dark`, `AUTO`, `sepia`, ...) becomes `auto`.
pub proof fn lemma_resolved_theme_mode_valid(mode: Seq<char>)
    ensures
        ({
            let m = if valid_theme_mode(mode) {
                mode
            } else {
                "auto"@
            };
            &&& m == "auto"@ || m == "light"@ || m == "dark"@
            &&& m == mode <==> (mode == "auto"@ || mode == "light"@ || mode == "dark"@)
        }),
{
}

/// Settings resolved up to the themes, which are read from disk next.
pub struct ConfigDraft {
    pub vault_dir_raw: String,
    pub vault_dir: String,
    pub editor: EditorConfig,
    pub theme_mode: String,
    pub theme_light: String,
    pub theme_dark: String,
    pub daily: DailyConfig,
    pub auto_update_links: bool,
    pub status_bar: StatusBarConfig,
    pub warnings: Vec<String>,
}

/// Resolves everything but the theme files. The vault directory, with `~` expanded, must be
/// absolute; an out-of-range font size falls back to the default; an unknown theme mode
/// becomes `auto` with a warning.
pub fn resolve_settings(config: Config, warnings: Vec<String>, home: &str) -> (r: Result<
    ConfigDraft,
    String,
>)
    ensures
        r is Err <==> !paths::is_absolute(tilde_expanded(config.vault.dir@, home@)),
        r matches Err(e) ==> e@ == relative_vault_error(config.vault.dir@),
        r matches Ok(d) ==> {
            &&& d.vault_dir_raw == config.vault.dir
            &&& d.vault_dir@ == tilde_expanded(config.vault.dir@, home@)
            &&& d.editor.font_size == clamped_font_size(config.editor.font_size)
            &&& d.editor.font_family == config.editor.font_family
            &&& d.editor.line_height_bits == config.editor.line_height_bits
            &&& (valid_theme_mode(config.theme.mode@) ==> d.theme_mode@ == config.theme.mode@
                && text::views(d.warnings@) == text::views(warnings@))
            &&& (d.theme_mode@ == "auto"@ || d.theme_mode@ == "light"@ || d.theme_mode@ == "dark"@)
            &&& (d.theme_mode@ == config.theme.mode@ <==> (config.theme.mode@ == "auto"@
                || config.theme.mode@ == "light"@ || config.theme.mode@ == "dark"@))
            &&& (!valid_theme_mode(config.theme.mode@) ==> d.theme_mode@ == "auto"@
                && text::views(d.warnings@) == text::views(warnings@).push(
                theme_mode_warning(config.theme.mode@),
            ))
            &&& d.theme_light == config.theme.light
            &&& d.theme_dark == config.theme.dark
            &&& d.daily == config.daily
            &&& d.auto_update_links == config.auto_update_links
            &&& d.status_bar == config.status_bar
        },
{
    let expanded = expand_tilde(config.vault.dir.as_str(), home);
    let e = chars_of(expanded.as_str());
    if !(e.len() > 0 && e[0] == '/') {
        let mut msg = owned("Vault directory must be an absolute path (got: ");
        push_str(&mut msg, config.vault.dir.as_str());
        push_str(&mut msg, ")");
        return Err(msg);
    }
    let mut editor = config.editor;
    if !(8 <= editor.font_size && editor.font_size <= 48) {
        editor.font_size = default_editor_font_size();
    }
    let mut warnings = warnings;
    let mode = config.theme.mode;
    let theme_mode = if str_eq(mode.as_str(), "auto") || str_eq(mode.as_str(), "light") || str_eq(
        mode.as_str(),
        "dark",
    ) {
        mode
    } else {
        let mut w = owned("Invalid theme mode \"");
        push_str(&mut w, mode.as_str());
        push_str(&mut w, "\" (expected auto, light, or dark), using auto");
        let ghost before = warnings@;
        warnings.push(w);
        proof {
            assert(text::views(warnings@) =~= text::views(before).push(w@));
        }
        owned("auto")
    };
    Ok(
        ConfigDraft {
            vault_dir_raw: config.vault.dir,
            vault_dir: expanded,
            editor,
            theme_mode,
            theme_light: config.theme.light,
            theme_dark: config.theme.dark,
            daily: config.daily,
            auto_update_links: config.auto_update_links,
            status_bar: config.status_bar,
            warnings,
        },
    )
}


// ---------------------------------------------------------------------------
// Themes.
// ---------------------------------------------------------------------------

/// Where a theme's CSS comes from: a built-in stylesheet, or a file to read.
pub enum ThemeSource {
    Builtin(String),
    File(String),
}

/// A theme name less one trailing `.css`.
pub open spec fn theme_stem(name: Seq<char>) -> Seq<char> {
    if paths::ends_with(name, ".css"@) {
        name.subrange(0, name.len() - 4)
    } else {
        name
    }
}

/// Built-in names (`default-light`, `default-dark`) give embedded stylesheets; any other name
/// is looked up as `{themes_dir}/{stem}.css`, where the stem is the name less one trailing
/// `.css`.
pub fn theme_source(name: &str, themes_dir: &str) -> (r: ThemeSource)
    ensures
        name@ == "default-light"@ ==> (r matches ThemeSource::Builtin(css) && css@
            == DEFAULT_LIGHT_CSS@),
        name@ == "default-dark"@ ==> (r matches ThemeSource::Builtin(css) && css@
            == DEFAULT_DARK_CSS@),
        name@ != "default-light"@ && name@ != "default-dark"@ ==> (r matches ThemeSource::File(p)
            && p@ == paths::join_path(themes_dir@, theme_stem(name@) + ".css"@)),
{
    proof {
        reveal_strlit("default-light");
        reveal_strlit("default-dark");
        reveal_strlit(".css");
        assert("default-light"@[8] != "default-dark"@[8]);
    }
    if str_eq(name, "default-light") {
        return ThemeSource::Builtin(owned(DEFAULT_LIGHT_CSS));
    }
    if str_eq(name, "default-dark") {
        return ThemeSource::Builtin(owned(DEFAULT_DARK_CSS));
    }
    let n = chars_of(name);
    let suffix = chars_of(".css");
    let stem_chars = if paths::ends_with_chars(&n, &suffix) {
        text::slice_chars(&n, 0, n.len() - 4)
    } else {
        n
    };
    let mut file = string_of(&stem_chars);
    push_str(&mut file, ".css");
    ThemeSource::File(paths::join(themes_dir, file.as_str()))
}

/// A theme may be named with or without its `.css` extension: both look up the same file.
pub proof fn lemma_theme_name_with_extension(name: Seq<char>)
    requires
        !paths::ends_with(name, ".css"@),
    ensures
        theme_stem(name + ".css"@) == theme_stem(name),
{
    reveal_strlit(".css");
    let n = name + ".css"@;
    assert(n.subrange(n.len() - 4, n.len() as int) =~= ".css"@);
    assert(n.subrange(0, n.len() - 4) =~= name);
}

/// The text of the warning given for a theme file that could not be read.
pub open spec fn missing_theme_warning(name: Seq<char>, file_path: Seq<char>) -> Seq<char> {
    "Theme \""@ + name + "\" not found (looked for "@ + file_path + "), using built-in"@
}

/// The CSS of a theme that is looked up in a file, given what reading `file_path` gave. When
/// the file could not be read, a warning is added and the built-in stylesheet named by
/// `fallback_builtin` is used (dark for `default-dark`, light otherwise).
pub fn theme_css_from_file(
    name: &str,
    file_path: &str,
    read: Option<String>,
    warnings: &mut Vec<String>,
    fallback_builtin: &str,
) -> (r: String)
    ensures
        read matches Some(css) ==> r == css && final(warnings)@ == old(warnings)@,
        read is None ==> text::views(final(warnings)@) == text::views(old(warnings)@).push(
            missing_theme_warning(name@, file_path@),
        ),
        read is None && fallback_builtin@ == "default-dark"@ ==> r@ == DEFAULT_DARK_CSS@,
        read is None && fallback_builtin@ != "default-dark"@ ==> r@ == DEFAULT_LIGHT_CSS@,
{
    match read {
        Some(css) => css,
        None => {
            let mut w = owned("Theme \"");
            push_str(&mut w, name);
            push_str(&mut w, "\" not found (looked for ");
            push_str(&mut w, file_path);
            push_str(&mut w, "), using built-in");
            let ghost before = warnings@;
            warnings.push(w);
            proof {
                assert(text::views(warnings@) =~= text::views(before).push(w@));
            }
            if str_eq(fallback_builtin, "default-dark") {
                owned(DEFAULT_DARK_CSS)
            } else {
                owned(DEFAULT_LIGHT_CSS)
            }
        },
    }
}

// ---------------------------------------------------------------------------
// The resolved configuration.
// ---------------------------------------------------------------------------

pub struct ResolvedConfig {
    pub config_path: String,
    pub vault_dir_raw: String,
    pub vault_dir: String,
    pub editor: EditorConfig,
    pub theme_mode: String,
    pub theme_light_css: String,
    pub theme_dark_css: String,
    pub daily: DailyConfig,
    pub auto_update_links: bool,
    pub status_bar: StatusBarConfig,
}

/// The warnings joined with `"; "` (`[String]::join`).
pub fn join_warnings(warnings: &Vec<String>) -> (r: String)
    ensures
        r@ == text::joined(text::views(warnings@), "; "@),
{
    let ghost w = text::views(warnings@);
    let mut out = String::new();
    let mut i: usize = 0;
    while i < warnings.len()
        invariant
            i <= warnings.len(),
            w == text::views(warnings@),
            out@ == text::joined(w.take(i as int), "; "@),
        decreases warnings.len() - i,
    {
        proof {
            assert(w.take(i + 1).drop_last() =~= w.take(i as int));
            assert(w.take(i + 1).last() == warnings@[i as int]@);
        }
        if i > 0 {
            push_str(&mut out, "; ");
        } else {
            assert(Seq::<char>::empty() + warnings@[0]@ =~= warnings@[0]@);
        }
        push_str(&mut out, warnings[i].as_str());
        i = i + 1;
    }
    assert(w.take(warnings.len() as int) =~= w);
    out
}

/// The settings the app runs with, and the warning to show (`None` when there is none; the
/// warnings joined with `"; "` otherwise).
pub fn finish_resolve(
    draft: ConfigDraft,
    config_path: &str,
    theme_light_css: String,
    theme_dark_css: String,
) -> (r: (ResolvedConfig, Option<String>))
    ensures
        r.0.config_path@ == config_path@,
        r.0.vault_dir_raw == draft.vault_dir_raw,
        r.0.vault_dir == draft.vault_dir,
        r.0.editor == draft.editor,
        r.0.theme_mode == draft.theme_mode,
        r.0.theme_light_css == theme_light_css,
        r.0.theme_dark_css == theme_dark_css,
        r.0.daily == draft.daily,
        r.0.auto_update_links == draft.auto_update_links,
        r.0.status_bar == draft.status_bar,
        draft.warnings@.len() == 0 ==> r.1 is None,
        draft.warnings@.len() > 0 ==> (r.1 matches Some(w) && w@ == text::joined(
            text::views(draft.warnings@),
            "; "@,
        )),
{
    let warning = if draft.warnings.len() == 0 {
        None
    } else {
        Some(join_warnings(&draft.warnings))
    };
    (
        ResolvedConfig {
            config_path: owned(config_path),
            vault_dir_raw: draft.vault_dir_raw,
            vault_dir: draft.vault_dir,
            editor: draft.editor,
            theme_mode: draft.theme_mode,
            theme_light_css,
            theme_dark_css,
            daily: draft.daily,
            auto_update_links: draft.auto_update_links,
            status_bar: draft.status_bar,
        },
        warning,
    )
}


// ---------------------------------------------------------------------------
// What the front end is told.
// ---------------------------------------------------------------------------

/// Editor settings for the front end; the line height is the bit pattern of its `f64`.
pub struct EditorConfigInfo {
    pub font_size: u32,
    pub font_family: String,
    pub line_height_bits: u64,
}

pub struct ThemeConfigInfo {
    pub mode: String,
    pub light_css: String,
    pub dark_css: String,
}

pub struct DailyConfigInfo {
    pub dir: String,
    pub format: String,
}

pub struct StatusBarConfigInfo {
    pub show: bool,
    pub show_backlinks: bool,
    pub show_word_count: bool,
}

pub struct ConfigInfo {
    pub config_path: String,
    pub vault_dir: String,
    pub vault_dir_display: String,
    pub warning: Option<String>,
    pub editor: EditorConfigInfo,
    pub theme: ThemeConfigInfo,
    pub daily: DailyConfigInfo,
    pub auto_update_links: bool,
    pub status_bar: StatusBarConfigInfo,
}

/// The settings as the front end receives them: the vault directory both expanded and as
/// written, and the warning of the last load.
pub fn config_info(config: &ResolvedConfig, warning: &Option<String>) -> (r: ConfigInfo)
    ensures
        r.config_path == config.config_path,
        r.vault_dir == config.vault_dir,
        r.vault_dir_display == config.vault_dir_raw,
        r.warning == *warning,
        r.editor.font_size == config.editor.font_size,
        r.editor.font_family == config.editor.font_family,
        r.editor.line_height_bits == config.editor.line_height_bits,
        r.theme.mode == config.theme_mode,
        r.theme.light_css == config.theme_light_css,
        r.theme.dark_css == config.theme_dark_css,
        r.daily.dir == config.daily.dir,
        r.daily.format == config.daily.format,
        r.auto_update_links == config.auto_update_links,
        r.status_bar.show == config.status_bar.show,
        r.status_bar.show_backlinks == config.status_bar.show_backlinks,
        r.status_bar.show_word_count == config.status_bar.show_word_count,
{
    let warning = match warning {
        Some(w) => Some(w.clone()),
        None => None,
    };
    ConfigInfo {
        config_path: config.config_path.clone(),
        vault_dir: config.vault_dir.clone(),
        vault_dir_display: config.vault_dir_raw.clone(),
        warning,
        editor: EditorConfigInfo {
            font_size: config.editor.font_size,
            font_family: config.editor.font_family.clone(),
            line_height_bits: config.editor.line_height_bits,
        },
        theme: ThemeConfigInfo {
            mode: config.theme_mode.clone(),
            light_css: config.theme_light_css.clone(),
            dark_css: config.theme_dark_css.clone(),
        },
        daily: DailyConfigInfo { dir: config.daily.dir.clone(), format: config.daily.format.clone() },
        auto_update_links: config.auto_update_links,
        status_bar: StatusBarConfigInfo {
            show: config.status_bar.show,
            show_backlinks: config.status_bar.show_backlinks,
            show_word_count: config.status_bar.show_word_count,
        },
    }
}

/// The settings file, relative to the home directory: `.config/pithy/config.toml`.
pub fn config_path_in(home: &str) -> (r: String)
    ensures
        r@ == paths::join_path(paths::join_path(paths::join_path(home@, ".config"@), "pithy"@),
            "config.toml"@),
{
    let a = paths::join(home, ".config");
    let b = paths::join(a.as_str(), "pithy");
    paths::join(b.as_str(), "config.toml")
}

/// The settings file for the home directory the environment gave, if it gave one.
pub fn config_path_from(home: Option<String>) -> (r: Result<String, String>)
    ensures
        home is None ==> (r matches Err(e) && e@ == "HOME environment variable not set"@),
        home matches Some(h) ==> (r matches Ok(p) && p@ == paths::join_path(
            paths::join_path(paths::join_path(h@, ".config"@), "pithy"@),
            "config.toml"@,
        )),
{
    match home {
        Some(h) => Ok(config_path_in(h.as_str())),
        None => Err(owned("HOME environment variable not set")),
    }
}

/// The directory that holds custom themes: `themes` beside the config file.
pub fn themes_dir_for(config_dir: &str) -> (r: String)
    ensures
        r@ == paths::join_path(config_dir@, "themes"@),
{
    paths::join(config_dir, "themes")
}

} // verus!
