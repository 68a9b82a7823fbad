//! Per-user configuration.
//!
//! The vanilla ROM never lives inside a project, so the path to it comes
//! from the user's environment: the `KOBO_SMW_ROM` variable first, then the
//! `roms.smw` key in the user config file. Tools are found the same way:
//! Asar's library from `KOBO_ASAR_LIB`, then `tools.asar`. Reading the
//! environment and the file is the application's part; this module
//! decides between what they hold.

use vstd::prelude::*;

verus! {

pub const ROM_ENV_VAR: &'static str = "KOBO_SMW_ROM";

pub const ASAR_ENV_VAR: &'static str = "KOBO_ASAR_LIB";

pub const ADDMUSICK_ENV_VAR: &'static str = "KOBO_ADDMUSICK";

pub const SA1PACK_ENV_VAR: &'static str = "KOBO_SA1PACK";

pub const UBERASM_ENV_VAR: &'static str = "KOBO_UBERASM";

pub const GPS_ENV_VAR: &'static str = "KOBO_GPS";

/// What is missing or wrong in the configuration.
#[derive(Clone, PartialEq, Eq, Debug)]
pub enum ConfigError {
    /// The config file at `path` could not be read.
    Io { path: String, message: String },
    /// The config file at `path` is not a valid configuration.
    Parse { path: String, message: String },
    NoVanillaRom,
    NoAsar,
    NoAddmusick,
    NoSa1Pack,
    NoUberasm,
    NoGps,
}

/// The user config file.
#[derive(Clone, PartialEq, Eq, Debug)]
pub struct Config {
    pub roms: Roms,
    pub tools: Tools,
}

#[derive(Clone, PartialEq, Eq, Debug)]
pub struct Roms {
    /// Path to the vanilla SMW ROM.
    pub smw: Option<String>,
}

#[derive(Clone, PartialEq, Eq, Debug)]
pub struct Tools {
    /// Path to Asar's shared library: `libasar.so`, `libasar.dylib`, or
    /// `asar.dll`.
    pub asar: Option<String>,
    /// Path to an AddmusicK folder: the program and the files it reads
    /// beside it. AddmusicK is never bundled, as it has no licence.
    pub addmusick: Option<String>,
    /// Path to an UberASM Tool folder: the program, built for the
    /// platform, and its files.
    pub uberasm: Option<String>,
    /// Path to a GPS folder: the program, built for the platform, and its
    /// files. GPS is never bundled, as it has no licence.
    pub gps: Option<String>,
    /// Path to an SA-1 Pack folder, the one holding `asm/sa1.asm`. SA-1
    /// Pack is never bundled, as it has no licence.
    pub sa1pack: Option<String>,
}

impl Default for Config {
    /// What a missing config file gives: nothing configured.
    fn default() -> (r: Self)
        ensures
            r.roms.smw is None,
            r.tools.asar is None,
            r.tools.addmusick is None,
            r.tools.uberasm is None,
            r.tools.gps is None,
            r.tools.sa1pack is None,
    {
        Config {
            roms: Roms { smw: None },
            tools: Tools { asar: None, addmusick: None, uberasm: None, gps: None, sa1pack: None },
        }
    }
}

/// The setting a variable's value and the config file give together: the
/// variable when set and not empty, else the file's key, which the file
/// may not have been read for.
pub open spec fn spec_resolve(
    env: Option<Seq<char>>,
    configured: Result<Option<Seq<char>>, ConfigError>,
    missing: ConfigError,
) -> Result<Seq<char>, ConfigError> {
    match env {
        Some(v) if v.len() > 0 => Ok(v),
        _ => match configured {
            Ok(Some(p)) => Ok(p),
            Ok(None) => Err(missing),
            Err(e) => Err(e),
        },
    }
}

/// A string's characters, an optional one's or a result's.
pub open spec fn chars_of(s: Option<String>) -> Option<Seq<char>> {
    match s {
        Some(v) => Some(v@),
        None => None,
    }
}

pub open spec fn result_chars_of(r: Result<Option<String>, ConfigError>) -> Result<
    Option<Seq<char>>,
    ConfigError,
> {
    match r {
        Ok(s) => Ok(chars_of(s)),
        Err(e) => Err(e),
    }
}

/// Picks the variable's value when it is set and not empty, else what the
/// config file's key holds, else `missing`; an unreadable file is an
/// error only when the variable does not decide.
pub fn resolve(
    env: Option<String>,
    configured: Result<Option<String>, ConfigError>,
    missing: ConfigError,
) -> (r: Result<String, ConfigError>)
    ensures
        same_outcome(r, spec_resolve(chars_of(env), result_chars_of(configured), missing)),
{
    if let Some(v) = env {
        if !v.as_str().is_empty() {
            return Ok(v);
        }
    }
    match configured {
        Ok(Some(p)) => Ok(p),
        Ok(None) => Err(missing),
        Err(e) => Err(e),
    }
}

/// A key of the config file, or the error the file's reading gave.
pub open spec fn configured_chars(
    config: Result<Config, ConfigError>,
    key: spec_fn(Config) -> Option<String>,
) -> Result<Option<Seq<char>>, ConfigError> {
    match config {
        Ok(c) => Ok(chars_of(key(c))),
        Err(e) => Err(e),
    }
}

/// The two results agree: the same path, or the same error.
pub open spec fn same_outcome(
    r: Result<String, ConfigError>,
    s: Result<Seq<char>, ConfigError>,
) -> bool {
    match (r, s) {
        (Ok(p), Ok(q)) => p@ == q,
        (Err(e), Err(f)) => e == f,
        _ => false,
    }
}

/// The vanilla ROM's path: `KOBO_SMW_ROM`, then `roms.smw`. `env` is the variable's value, `config` the loaded config
/// file.
pub fn vanilla_rom_path(env: Option<String>, config: Result<Config, ConfigError>) -> (r: Result<
    String,
    ConfigError,
>)
    ensures
        same_outcome(
            r,
            spec_resolve(
                chars_of(env),
                configured_chars(config, |c: Config| c.roms.smw),
                ConfigError::NoVanillaRom,
            ),
        ),
{
    let configured = match config {
        Ok(c) => Ok(c.roms.smw),
        Err(e) => Err(e),
    };
    resolve(env, configured, ConfigError::NoVanillaRom)
}

/// The AddmusicK folder: `KOBO_ADDMUSICK`, then `tools.addmusick`. `env` is the variable's value, `config` the loaded config
/// file.
pub fn addmusick_path(env: Option<String>, config: Result<Config, ConfigError>) -> (r: Result<
    String,
    ConfigError,
>)
    ensures
        same_outcome(
            r,
            spec_resolve(
                chars_of(env),
                configured_chars(config, |c: Config| c.tools.addmusick),
                ConfigError::NoAddmusick,
            ),
        ),
{
    let configured = match config {
        Ok(c) => Ok(c.tools.addmusick),
        Err(e) => Err(e),
    };
    resolve(env, configured, ConfigError::NoAddmusick)
}

/// The UberASM Tool folder: `KOBO_UBERASM`, then `tools.uberasm`. `env` is the variable's value, `config` the loaded config
/// file.
pub fn uberasm_path(env: Option<String>, config: Result<Config, ConfigError>) -> (r: Result<
    String,
    ConfigError,
>)
    ensures
        same_outcome(
            r,
            spec_resolve(
                chars_of(env),
                configured_chars(config, |c: Config| c.tools.uberasm),
                ConfigError::NoUberasm,
            ),
        ),
{
    let configured = match config {
        Ok(c) => Ok(c.tools.uberasm),
        Err(e) => Err(e),
    };
    resolve(env, configured, ConfigError::NoUberasm)
}

/// The GPS folder: `KOBO_GPS`, then `tools.gps`. `env` is the variable's value, `config` the loaded config
/// file.
pub fn gps_path(env: Option<String>, config: Result<Config, ConfigError>) -> (r: Result<
    String,
    ConfigError,
>)
    ensures
        same_outcome(
            r,
            spec_resolve(
                chars_of(env),
                configured_chars(config, |c: Config| c.tools.gps),
                ConfigError::NoGps,
            ),
        ),
{
    let configured = match config {
        Ok(c) => Ok(c.tools.gps),
        Err(e) => Err(e),
    };
    resolve(env, configured, ConfigError::NoGps)
}

/// The SA-1 Pack folder: `KOBO_SA1PACK`, then `tools.sa1pack`. `env` is the variable's value, `config` the loaded config
/// file.
pub fn sa1pack_path(env: Option<String>, config: Result<Config, ConfigError>) -> (r: Result<
    String,
    ConfigError,
>)
    ensures
        same_outcome(
            r,
            spec_resolve(
                chars_of(env),
                configured_chars(config, |c: Config| c.tools.sa1pack),
                ConfigError::NoSa1Pack,
            ),
        ),
{
    let configured = match config {
        Ok(c) => Ok(c.tools.sa1pack),
        Err(e) => Err(e),
    };
    resolve(env, configured, ConfigError::NoSa1Pack)
}

/// Asar's shared library: `KOBO_ASAR_LIB`, then `tools.asar`. `env` is the variable's value, `config` the loaded config
/// file.
pub fn asar_library_path(env: Option<String>, config: Result<Config, ConfigError>) -> (r: Result<
    String,
    ConfigError,
>)
    ensures
        same_outcome(
            r,
            spec_resolve(
                chars_of(env),
                configured_chars(config, |c: Config| c.tools.asar),
                ConfigError::NoAsar,
            ),
        ),
{
    let configured = match config {
        Ok(c) => Ok(c.tools.asar),
        Err(e) => Err(e),
    };
    resolve(env, configured, ConfigError::NoAsar)
}

} // verus!
