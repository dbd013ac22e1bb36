//! The settings, and where they are kept.

use vstd::prelude::*;

use crate::numbers;
use crate::paths;
use crate::text;
use crate::text::CharSet;

verus! {

#[derive(Debug, Clone)]
pub struct Settings {
    pub base_folder: String,
    pub port: u16,
    pub db_path: String,
    pub thumb_dir: String,
    pub preferred_slicer: Option<String>,
    pub rescan_on_startup: bool,
}

pub struct SettingsView {
    pub base_folder: Seq<char>,
    pub port: u16,
    pub db_path: Seq<char>,
    pub thumb_dir: Seq<char>,
    pub preferred_slicer: Option<Seq<char>>,
    pub rescan_on_startup: bool,
}

impl View for Settings {
    type V = SettingsView;

    open spec fn view(&self) -> SettingsView {
        SettingsView {
            base_folder: self.base_folder@,
            port: self.port,
            db_path: self.db_path@,
            thumb_dir: self.thumb_dir@,
            preferred_slicer: text::text_of(self.preferred_slicer),
            rescan_on_startup: self.rescan_on_startup,
        }
    }
}

impl Default for Settings {
    fn default() -> (r: Self)
        ensures
            r@ == (SettingsView {
                base_folder: Seq::empty(),
                port: 0,
                db_path: Seq::empty(),
                thumb_dir: Seq::empty(),
                preferred_slicer: None,
                rescan_on_startup: false,
            }),
    {
        Settings {
            base_folder: String::new(),
            port: 0,
            db_path: String::new(),
            thumb_dir: String::new(),
            preferred_slicer: None,
            rescan_on_startup: false,
        }
    }
}

/// The settings as the form on the settings page sends them.
pub struct SettingsForm {
    pub base_folder: String,
    pub port: String,
    pub db_path: String,
    pub thumb_dir: String,
    pub preferred_slicer: String,
    pub rescan_on_startup: Option<String>,
}

/// The home directory, or the current one where it is not known.
pub open spec fn home_dir(home: Option<Seq<char>>) -> Seq<char> {
    match home {
        Some(h) => h,
        None => "."@,
    }
}

/// The directory of the settings, given the home directory and the directory of all settings,
/// as far as the environment names them.
pub open spec fn settings_dir(
    macos: bool,
    home: Option<Seq<char>>,
    config_home: Option<Seq<char>>,
) -> Seq<char> {
    if macos {
        paths::joined(home_dir(home), "Library/Application Support/org3d"@)
    } else {
        match config_home {
            Some(c) => paths::joined(c, "org3d"@),
            None => paths::joined(paths::joined(home_dir(home), ".config"@), "org3d"@),
        }
    }
}

/// The text without the white space around it.
pub open spec fn trimmed(s: Seq<char>) -> Seq<char> {
    text::trim(s, CharSet::Space)
}

/// The port that a text names; what is no port is zero, which leaves the choice open.
pub open spec fn port_of(s: Seq<char>) -> u16 {
    match numbers::natural(trimmed(s)) {
        Some(n) => if n <= u16::MAX {
            n as u16
        } else {
            0
        },
        None => 0,
    }
}

/// The slicer that a form names.
pub open spec fn slicer_of(s: Seq<char>) -> Option<Seq<char>> {
    if s == "none"@ || s == ""@ {
        None
    } else {
        Some(s)
    }
}

/// The settings that a form asks for.
pub open spec fn form_settings(f: SettingsForm) -> SettingsView {
    SettingsView {
        base_folder: trimmed(f.base_folder@),
        port: port_of(f.port@),
        db_path: trimmed(f.db_path@),
        thumb_dir: trimmed(f.thumb_dir@),
        preferred_slicer: slicer_of(f.preferred_slicer@),
        rescan_on_startup: text::text_of(f.rescan_on_startup) == Some("on"@),
    }
}

fn trim_text(s: &str) -> (r: String)
    ensures
        r@ == trimmed(s@),
{
    let all = text::chars_of(s);
    text::string_of(text::trim_chars(all.as_slice(), CharSet::Space))
}

/// A path, or another below the data directory where it is empty.
pub open spec fn path_or(path: Seq<char>, data_dir: Seq<char>, name: Seq<char>) -> Seq<char> {
    if path.len() == 0 {
        paths::joined(data_dir, name)
    } else {
        path
    }
}

fn path_or_default(path: &String, data_dir: &str, name: &str) -> (r: String)
    ensures
        r@ == path_or(path@, data_dir@, name@),
{
    if text::chars_of(path.as_str()).len() == 0 {
        paths::join(data_dir, name)
    } else {
        path.clone()
    }
}

impl Settings {
    /// The directory of the settings, given what the environment names.
    pub fn config_dir(macos: bool, home: Option<&str>, config_home: Option<&str>) -> (r: String)
        ensures
            r@ == settings_dir(macos, text::str_text_of(home), text::str_text_of(config_home)),
    {
        let home: &str = match home {
            Some(h) => h,
            None => ".",
        };
        if macos {
            return paths::join(home, "Library/Application Support/org3d");
        }
        match config_home {
            Some(c) => paths::join(c, "org3d"),
            None => paths::join(paths::join(home, ".config").as_str(), "org3d"),
        }
    }

    /// The file of the settings, given what the environment names.
    pub fn config_file(macos: bool, home: Option<&str>, config_home: Option<&str>) -> (r: String)
        ensures
            r@ == paths::joined(
                settings_dir(macos, text::str_text_of(home), text::str_text_of(config_home)),
                "config.toml"@,
            ),
    {
        paths::join(Settings::config_dir(macos, home, config_home).as_str(), "config.toml")
    }

    /// Tests whether a base folder is set.
    pub fn is_configured(&self) -> (r: bool)
        ensures
            r == (self@.base_folder.len() > 0),
    {
        text::chars_of(self.base_folder.as_str()).len() > 0
    }

    /// Reads the settings that a form asks for.
    pub fn from_form(form: &SettingsForm) -> (r: Settings)
        ensures
            r@ == form_settings(*form),
    {
        let port_text = text::chars_of(form.port.as_str());
        let port: u16 = match numbers::parse_u16(
            text::trim_chars(port_text.as_slice(), CharSet::Space),
        ) {
            Some(p) => p,
            None => 0,
        };
        let slicer: &str = form.preferred_slicer.as_str();
        let preferred_slicer: Option<String> = if text::same(slicer, "none") || text::same(
            slicer,
            "",
        ) {
            None
        } else {
            Some(slicer.to_owned())
        };
        let rescan_on_startup: bool = match &form.rescan_on_startup {
            Some(s) => text::same(s.as_str(), "on"),
            None => false,
        };
        Settings {
            base_folder: trim_text(form.base_folder.as_str()),
            port,
            db_path: trim_text(form.db_path.as_str()),
            thumb_dir: trim_text(form.thumb_dir.as_str()),
            preferred_slicer,
            rescan_on_startup,
        }
    }

    /// The settings with the paths that are empty put below the data directory.
    pub fn with_data_dir(&self, data_dir: &str) -> (r: Settings)
        ensures
            r@ == (SettingsView {
                db_path: path_or(self@.db_path, data_dir@, "org3d.db"@),
                thumb_dir: path_or(self@.thumb_dir, data_dir@, "thumbs"@),
                ..self@
            }),
    {
        Settings {
            base_folder: self.base_folder.clone(),
            port: self.port,
            db_path: path_or_default(&self.db_path, data_dir, "org3d.db"),
            thumb_dir: path_or_default(&self.thumb_dir, data_dir, "thumbs"),
            preferred_slicer: text::copy_text(&self.preferred_slicer),
            rescan_on_startup: self.rescan_on_startup,
        }
    }
}

// ---------------------------------------------------------------------------------------
// What the settings are read from
// ---------------------------------------------------------------------------------------

/// A port that is written as a number of 16 bits, with white space around it or not, is that
/// number; anything else is zero.
pub proof fn ports_are_numbers(before: Seq<char>, n: nat, after: Seq<char>)
    requires
        forall|i: int| 0 <= i < before.len() ==> text::is_space(#[trigger] before[i]),
        forall|i: int| 0 <= i < after.len() ==> text::is_space(#[trigger] after[i]),
    ensures
        n <= u16::MAX ==> port_of(before + numbers::decimal(n as int) + after) == n,
        n > u16::MAX ==> port_of(before + numbers::decimal(n as int) + after) == 0,
        port_of(before) == 0,
{
    let s = numbers::decimal(n as int);
    numbers::decimal_reads_back(n as int);
    numbers::decimal_is_digits(n);
    lemma_trimmed(before, s, after);
    let (i, j) = text::trimming_takes_the_ends(before, CharSet::Space);
    if i < j {
        assert(text::is_space(before[i]));
    }
}

/// White space around a text goes.
proof fn lemma_trimmed(before: Seq<char>, s: Seq<char>, after: Seq<char>)
    requires
        s.len() > 0,
        !text::is_space(s[0]),
        !text::is_space(s.last()),
        forall|i: int| 0 <= i < before.len() ==> text::is_space(#[trigger] before[i]),
        forall|i: int| 0 <= i < after.len() ==> text::is_space(#[trigger] after[i]),
    ensures
        trimmed(before + s + after) == s,
{
    let all = before + s + after;
    let a = before.len() as int;
    let b = (before.len() + s.len()) as int;
    let (i, j) = text::trimming_takes_the_ends(all, CharSet::Space);
    assert(all[a] == s[0]);
    assert(all[b - 1] == s[s.len() - 1]);
    assert(!CharSet::Space.has(all[a]) && !CharSet::Space.has(all[b - 1]));
    assert(i <= a && b <= j);
    if i < a {
        assert(all[i] == before[i]);
    }
    if b < j {
        assert(all[j - 1] == after[j - 1 - b]);
    }
    assert(all.subrange(a, b) =~= s);
}

/// Each field of the form gives its setting, and no other one: the paths without white space
/// around them, the slicer where one is chosen, and the scan where its box is ticked.
pub proof fn every_field_gives_its_setting(f: SettingsForm)
    ensures
        ({
            let s = form_settings(f);
            &&& s.base_folder == text::trim(f.base_folder@, CharSet::Space)
            &&& s.db_path == text::trim(f.db_path@, CharSet::Space)
            &&& s.thumb_dir == text::trim(f.thumb_dir@, CharSet::Space)
            &&& s.port == port_of(f.port@)
            &&& f.preferred_slicer@.len() > 0 && f.preferred_slicer@ != "none"@
                ==> s.preferred_slicer == Some(f.preferred_slicer@)
            &&& f.preferred_slicer@.len() == 0 || f.preferred_slicer@ == "none"@
                ==> s.preferred_slicer is None
            &&& s.rescan_on_startup <==> f.rescan_on_startup is Some && f.rescan_on_startup->0@
                == "on"@
        }),
{
    reveal_strlit("");
    if f.preferred_slicer@.len() == 0 {
        assert(f.preferred_slicer@ =~= ""@);
    }
}

/// A path that is set stays, and one that is not lies below the data directory.
pub proof fn set_paths_stay(path: Seq<char>, data_dir: Seq<char>, name: Seq<char>)
    ensures
        path.len() > 0 ==> path_or(path, data_dir, name) == path,
        path.len() == 0 ==> path_or(path, data_dir, name) == paths::joined(data_dir, name),
{
}

/// The settings lie where the system keeps them: on macOS in the library of the home directory,
/// and elsewhere in the configuration directory, which lies in the home directory unless the
/// environment names another.
pub proof fn settings_lie_where_the_system_keeps_them(
    home: Seq<char>,
    config_home: Option<Seq<char>>,
)
    ensures
        settings_dir(true, Some(home), config_home) == paths::joined(
            home,
            "Library/Application Support/org3d"@,
        ),
        config_home is Some ==> settings_dir(false, Some(home), config_home) == paths::joined(
            config_home->0,
            "org3d"@,
        ),
        config_home is None ==> settings_dir(false, Some(home), config_home) == paths::joined(
            paths::joined(home, ".config"@),
            "org3d"@,
        ),
        settings_dir(true, None, config_home) == settings_dir(true, Some("."@), config_home),
        settings_dir(false, None, config_home) == settings_dir(false, Some("."@), config_home),
{
}

} // verus!
