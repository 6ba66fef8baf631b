//! This device's own identity: a stable ID, a human-readable name, and the
//! long-lived keypair everything else authenticates with.
use vstd::prelude::*;

use crate::crypto::{key_fingerprint, pem_key_der, short_form, DeviceKey, Fingerprint};
use crate::error::Result;
use crate::settings::{Settings, SettingsStore};
use crate::text::{push_all, push_str, str_eq, string_from_chars, string_of, trim, trim_str};

verus! {

/// The file the identity is kept in, inside the data directory.
pub const IDENTITY_FILE: &'static str = "identity.json";

/// `uuid::Uuid::new_v4().to_string()`: a fresh random UUID in its hyphenated
/// form. Random, so only the length of that form (36, as the crate
/// documents) is claimed.
#[verifier::external_body]
pub(crate) fn new_uuid() -> (res: String)
    ensures
        res@.len() == 36,
{
    uuid::Uuid::new_v4().to_string()
}

/// The public half of an identity, safe to broadcast on the network.
#[derive(Debug, Clone)]
pub struct DeviceInfo {
    pub device_id: String,
    pub device_name: String,
    pub platform: String,
    pub fingerprint: Fingerprint,
}

/// This device: its ID, its name and its key.
pub struct Identity {
    pub device_id: String,
    pub device_name: String,
    pub key: DeviceKey,
}

/// What gets written to disk. The private key lives here in PEM form.
#[derive(Debug, Clone)]
pub struct StoredIdentity {
    pub device_id: String,
    pub device_name: String,
    pub key_pem: String,
}

/// The platform names the app reports, by the operating system the code was
/// built for; anything else is "unknown".
pub open spec fn platform_name(target_os: Seq<char>) -> Seq<char> {
    if target_os == "windows"@ || target_os == "macos"@ || target_os == "linux"@ || target_os
        == "android"@ || target_os == "ios"@ {
        target_os
    } else {
        "unknown"@
    }
}

/// The platform name for the operating system the app was built for
/// (`std::env::consts::OS`, which the caller passes in).
pub fn current_platform(target_os: &str) -> (res: &'static str)
    ensures
        res@ == platform_name(target_os@),
{
    if str_eq(target_os, "windows") {
        "windows"
    } else if str_eq(target_os, "macos") {
        "macos"
    } else if str_eq(target_os, "linux") {
        "linux"
    } else if str_eq(target_os, "android") {
        "android"
    } else if str_eq(target_os, "ios") {
        "ios"
    } else {
        "unknown"
    }
}

/// The first candidate that is not blank, trimmed.
pub open spec fn first_named(candidates: Seq<Seq<char>>) -> Option<Seq<char>>
    decreases candidates.len(),
{
    if candidates.len() == 0 {
        None
    } else if trim(candidates[0]).len() > 0 {
        Some(trim(candidates[0]))
    } else {
        first_named(candidates.skip(1))
    }
}

/// The name a device gets before the user picks one: the first host name
/// that is not blank; else the first user name, as "NAME's PLATFORM"; else
/// "fluqsr PLATFORM".
pub open spec fn default_name_of(
    hosts: Seq<Seq<char>>,
    users: Seq<Seq<char>>,
    platform: Seq<char>,
) -> Seq<char> {
    match first_named(hosts) {
        Some(host) => host,
        None => match first_named(users) {
            Some(user) => user + "'s "@ + platform,
            None => "fluqsr "@ + platform,
        },
    }
}

fn first_named_in(candidates: &Vec<String>) -> (res: Option<Vec<char>>)
    ensures
        match res {
            Some(v) => first_named(candidates@.map_values(|s: String| s@)) == Some(v@),
            None => first_named(candidates@.map_values(|s: String| s@)) is None,
        },
{
    let ghost all = candidates@.map_values(|s: String| s@);
    let mut i: usize = 0;
    assert(all.skip(0) =~= all);
    while i < candidates.len()
        invariant
            i <= candidates@.len(),
            all == candidates@.map_values(|s: String| s@),
            first_named(all) == first_named(all.skip(i as int)),
        decreases candidates@.len() - i,
    {
        let trimmed = trim_str(candidates[i].as_str());
        proof {
            assert(all.skip(i as int)[0] == candidates@[i as int]@);
            assert(all.skip(i as int).skip(1) =~= all.skip(i + 1));
        }
        if trimmed.len() > 0 {
            return Some(trimmed);
        }
        i = i + 1;
    }
    proof {
        assert(all.skip(i as int).len() == 0);
    }
    None
}

/// A name the user will recognise in someone else's peer list, from the
/// host names and the user names the environment offers, in order of
/// preference. Cosmetic, so it never fails.
pub fn default_device_name(hosts: &Vec<String>, users: &Vec<String>, platform: &str) -> (res: String)
    ensures
        res@ == default_name_of(
            hosts@.map_values(|s: String| s@),
            users@.map_values(|s: String| s@),
            platform@,
        ),
{
    match first_named_in(hosts) {
        Some(host) => string_from_chars(&host),
        None => {
            let mut name: Vec<char> = Vec::new();
            match first_named_in(users) {
                Some(user) => {
                    push_all(&mut name, &user);
                    push_str(&mut name, "'s ");
                    push_str(&mut name, platform);
                },
                None => {
                    push_str(&mut name, "fluqsr ");
                    push_str(&mut name, platform);
                },
            }
            string_from_chars(&name)
        },
    }
}

impl Identity {
    /// A fresh identity: a random ID, the given name and a new key.
    pub fn generate(device_name: &str) -> (res: Result<Identity>)
        ensures
            res matches Ok(id) ==> id.device_name@ == device_name@ && id.device_id@.len() == 36,
            res matches Err(e) ==> e is Certificate,
    {
        let key = DeviceKey::generate()?;
        Ok(Identity { device_id: new_uuid(), device_name: string_of(device_name), key })
    }

    /// The identity kept on disk, if its key still parses. A corrupt key is
    /// not recoverable: the caller then starts over with a fresh identity.
    pub fn restore(stored: StoredIdentity) -> (res: Option<Identity>)
        ensures
            match pem_key_der(stored.key_pem@) {
                Some(der) => res matches Some(id) && id.device_id@ == stored.device_id@
                    && id.device_name@ == stored.device_name@ && id.key.key_der() == der
                    && id.key.spec_fingerprint()@ == key_fingerprint(der),
                None => res is None,
            },
            res matches Some(id) ==> restored(stored) == Some(identity_view(id)),
    {
        match DeviceKey::from_pem(stored.key_pem.as_str()) {
            Ok(key) => Some(
                Identity { device_id: stored.device_id, device_name: stored.device_name, key },
            ),
            Err(_) => None,
        }
    }

    /// What gets written to disk.
    pub fn to_stored(&self) -> (res: StoredIdentity)
        ensures
            res.device_id@ == self.device_id@,
            res.device_name@ == self.device_name@,
            pem_key_der(res.key_pem@) == Some(self.key.key_der()),
    {
        StoredIdentity {
            device_id: self.device_id.clone(),
            device_name: self.device_name.clone(),
            key_pem: self.key.to_pem(),
        }
    }

    pub fn fingerprint(&self) -> (res: Fingerprint)
        ensures
            res == self.key.spec_fingerprint(),
            res@ == key_fingerprint(self.key.key_der()),
    {
        self.key.fingerprint()
    }

    /// The public half of this identity, on the platform named by
    /// `target_os`.
    pub fn info(&self, target_os: &str) -> (res: DeviceInfo)
        ensures
            res.device_id@ == self.device_id@,
            res.device_name@ == self.device_name@,
            res.platform@ == platform_name(target_os@),
            res.fingerprint == self.key.spec_fingerprint(),
    {
        DeviceInfo {
            device_id: self.device_id.clone(),
            device_name: self.device_name.clone(),
            platform: string_of(current_platform(target_os)),
            fingerprint: self.fingerprint(),
        }
    }
}

/// An identity as the network knows it: its ID, its name and the
/// fingerprint of its key.
pub open spec fn identity_view(identity: Identity) -> (Seq<char>, Seq<char>, Seq<u8>) {
    (identity.device_id@, identity.device_name@, key_fingerprint(identity.key.key_der()))
}

/// What `Identity::restore` makes of a stored identity, seen as
/// `identity_view` sees it, or `None` when no key loads from its text.
pub open spec fn restored(stored: StoredIdentity) -> Option<(Seq<char>, Seq<char>, Seq<u8>)> {
    match pem_key_der(stored.key_pem@) {
        Some(der) => Some((stored.device_id@, stored.device_name@, key_fingerprint(der))),
        None => None,
    }
}

/// An identity written to disk and read back is the same device, with the
/// same ID, name and fingerprint: reloading never rotates the key, which
/// would make every peer pair again.
pub proof fn lemma_identity_survives_restart(identity: Identity, stored: StoredIdentity)
    requires
        stored.device_id@ == identity.device_id@,
        stored.device_name@ == identity.device_name@,
        pem_key_der(stored.key_pem@) == Some(identity.key.key_der()),
    ensures
        restored(stored) == Some(identity_view(identity)),
{
}

/// Everything the UI shows in its "this device" panel.
#[derive(Debug)]
pub struct SelfView {
    pub device: DeviceInfo,
    /// Short form of our own fingerprint, for the user to read aloud when
    /// verifying a pairing over a phone call.
    pub short_fingerprint: String,
    pub settings: Settings,
}

impl SelfView {
    /// The panel's contents. The display name is user-editable and lives in
    /// the settings; the identity keeps whatever it was created with.
    pub fn of(identity: &Identity, settings: &SettingsStore, target_os: &str) -> (res: SelfView)
        ensures
            res.device.device_id@ == identity.device_id@,
            res.device.device_name@ == settings@.device_name,
            res.device.platform@ == platform_name(target_os@),
            res.device.fingerprint == identity.key.spec_fingerprint(),
            res.short_fingerprint@ == short_form(identity.key.spec_fingerprint()@),
            res.settings@ == settings@,
    {
        let mut device = identity.info(target_os);
        device.device_name = settings.device_name();
        SelfView {
            short_fingerprint: identity.fingerprint().to_short(),
            device,
            settings: settings.get(),
        }
    }
}

} // verus!
