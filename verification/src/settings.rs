//! User-adjustable settings, kept alongside the identity and trust store.
use vstd::prelude::*;

use crate::discovery::DEFAULT_TRANSFER_PORT;
use crate::text::{chars_of, push_all, push_str, string_from_chars, trim, trim_str};

verus! {

/// The longest device name kept, in characters.
pub const MAX_DEVICE_NAME_CHARS: usize = 64;

#[derive(Debug)]
pub struct Settings {
    /// Where received files land. Every incoming write is confined to it.
    pub receive_dir: String,
    pub transfer_port: u16,
    /// Name shown to other devices. Cosmetic; carries no authority.
    pub device_name: String,
}

pub struct SettingsView {
    pub receive_dir: Seq<char>,
    pub transfer_port: u16,
    pub device_name: Seq<char>,
}

impl View for Settings {
    type V = SettingsView;

    open spec fn view(&self) -> SettingsView {
        SettingsView {
            receive_dir: self.receive_dir@,
            transfer_port: self.transfer_port,
            device_name: self.device_name@,
        }
    }
}

impl Clone for Settings {
    fn clone(&self) -> (res: Settings)
        ensures
            res@ == self@,
    {
        Settings {
            receive_dir: self.receive_dir.clone(),
            transfer_port: self.transfer_port,
            device_name: self.device_name.clone(),
        }
    }
}

/// `Path::join` of a relative name onto a base, with `/` as the separator.
pub open spec fn joined(base: Seq<char>, name: Seq<char>) -> Seq<char> {
    if base.len() == 0 {
        name
    } else if base.last() == '/' {
        base + name
    } else {
        base + seq!['/'] + name
    }
}

/// Joins a relative name onto a base path.
pub fn join_path(base: &str, name: &str) -> (res: String)
    ensures
        res@ == joined(base@, name@),
{
    let b = chars_of(base);
    let mut v: Vec<char> = Vec::new();
    push_all(&mut v, &b);
    if b.len() > 0 && b[b.len() - 1] != '/' {
        v.push('/');
    }
    push_str(&mut v, name);
    proof {
        if b.len() > 0 && b@.last() != '/' {
            assert(v@ =~= base@ + seq!['/'] + name@);
        } else {
            assert(v@ =~= base@ + name@);
        }
    }
    string_from_chars(&v)
}

/// The default landing folder: `fluqsr` inside the user's Downloads when that
/// folder exists, else inside the home directory, else inside `.`.
pub open spec fn default_receive_dir_of(home: Option<Seq<char>>, has_downloads: bool) -> Seq<char> {
    let h = match home {
        Some(h) => h,
        None => "."@,
    };
    if has_downloads {
        joined(joined(h, "Downloads"@), "fluqsr"@)
    } else {
        joined(h, "fluqsr"@)
    }
}

/// The default receive folder, given the home directory (when it exists)
/// and whether it holds a `Downloads` folder.
pub fn default_receive_dir(home: Option<&str>, has_downloads: bool) -> (res: String)
    ensures
        res@ == default_receive_dir_of(
            match home {
                Some(h) => Some(h@),
                None => None,
            },
            has_downloads,
        ),
{
    let h: &str = match home {
        Some(h) => h,
        None => ".",
    };
    if has_downloads {
        let downloads = join_path(h, "Downloads");
        join_path(downloads.as_str(), "fluqsr")
    } else {
        join_path(h, "fluqsr")
    }
}

impl Settings {
    /// First-run settings: the given name and folder, and the default port.
    pub fn defaults(device_name: String, receive_dir: String) -> (res: Settings)
        ensures
            res@ == (SettingsView {
                receive_dir: receive_dir@,
                transfer_port: DEFAULT_TRANSFER_PORT,
                device_name: device_name@,
            }),
    {
        Settings { receive_dir, transfer_port: DEFAULT_TRANSFER_PORT, device_name }
    }
}

/// What `set_device_name` keeps of a requested name: its first 64
/// characters after trimming.
pub open spec fn bounded_name(name: Seq<char>) -> Seq<char> {
    let t = trim(name);
    if t.len() > MAX_DEVICE_NAME_CHARS {
        t.take(MAX_DEVICE_NAME_CHARS as int)
    } else {
        t
    }
}

/// The current settings.
pub struct SettingsStore {
    settings: Settings,
}

impl View for SettingsStore {
    type V = SettingsView;

    closed spec fn view(&self) -> SettingsView {
        self.settings@
    }
}

/// What `SettingsStore::load` starts from: the stored settings when there
/// are any, else the defaults for the given name and folder.
pub open spec fn loaded(
    stored: Option<SettingsView>,
    device_name: Seq<char>,
    default_dir: Seq<char>,
) -> SettingsView {
    match stored {
        Some(s) => s,
        None => SettingsView {
            receive_dir: default_dir,
            transfer_port: DEFAULT_TRANSFER_PORT,
            device_name,
        },
    }
}

/// Settings written out (`get`) and loaded back at the next start are the
/// settings that were written, whatever name and folder the start would
/// otherwise default to: saved changes win.
pub proof fn lemma_settings_survive_a_restart(
    saved: SettingsView,
    device_name: Seq<char>,
    default_dir: Seq<char>,
)
    ensures
        loaded(Some(saved), device_name, default_dir) == saved,
{
}

impl SettingsStore {
    /// The stored settings when there are any, else the defaults for the
    /// given name and folder.
    pub fn load(stored: Option<Settings>, device_name: String, default_dir: String) -> (res:
        SettingsStore)
        ensures
            res@ == loaded(
                match stored {
                    Some(s) => Some(s@),
                    None => None,
                },
                device_name@,
                default_dir@,
            ),
    {
        match stored {
            Some(s) => SettingsStore { settings: s },
            None => SettingsStore { settings: Settings::defaults(device_name, default_dir) },
        }
    }

    pub fn get(&self) -> (res: Settings)
        ensures
            res@ == self@,
    {
        self.settings.clone()
    }

    pub fn receive_dir(&self) -> (res: String)
        ensures
            res@ == self@.receive_dir,
    {
        self.settings.receive_dir.clone()
    }

    pub fn transfer_port(&self) -> (res: u16)
        ensures
            res == self@.transfer_port,
    {
        self.settings.transfer_port
    }

    pub fn device_name(&self) -> (res: String)
        ensures
            res@ == self@.device_name,
    {
        self.settings.device_name.clone()
    }

    /// Points received files at a new folder (which the caller has created).
    pub fn set_receive_dir(&mut self, dir: String)
        ensures
            final(self)@ == (SettingsView { receive_dir: dir@, ..old(self)@ }),
    {
        self.settings.receive_dir = dir;
    }

    /// Renames this device: the name is trimmed and cut to 64 characters, and
    /// a name that is blank after trimming is ignored.
    pub fn set_device_name(&mut self, name: &str)
        ensures
            bounded_name(name@).len() == 0 ==> final(self)@ == old(self)@,
            bounded_name(name@).len() > 0 ==> final(self)@ == (SettingsView {
                device_name: bounded_name(name@),
                ..old(self)@
            }),
    {
        let t = trim_str(name);
        let mut kept: Vec<char> = Vec::new();
        let mut i: usize = 0;
        while i < t.len() && i < MAX_DEVICE_NAME_CHARS
            invariant
                i <= t.len(),
                i <= MAX_DEVICE_NAME_CHARS,
                kept@ == t@.take(i as int),
            decreases t.len() - i,
        {
            kept.push(t[i]);
            i = i + 1;
            proof {
                assert(t@.take(i as int) =~= t@.take(i - 1).push(t@[i - 1]));
            }
        }
        proof {
            if t.len() <= MAX_DEVICE_NAME_CHARS {
                assert(t@.take(t@.len() as int) =~= t@);
            }
        }
        if kept.len() > 0 {
            self.settings.device_name = string_from_chars(&kept);
        }
    }
}

/// A kept device name is never longer than 64 characters, and never blank
/// when the requested one was not.
pub proof fn lemma_bounded_name(name: Seq<char>)
    ensures
        bounded_name(name).len() <= MAX_DEVICE_NAME_CHARS,
        trim(name).len() > 0 ==> bounded_name(name).len() > 0,
{
}

} // verus!
