//! Typed configuration, filled from `AUDIFY_*` environment variables and
//! validated at startup. Invalid configuration is a hard error before any work.
//!
//! Reading the environment into a `Config` is the `config` crate's work
//! (with serde), done around the library; what comes of it is checked here.
use vstd::prelude::*;

use crate::error::Error;
use crate::text::{ascii_lower, trim_ws};
use crate::types::{format_named, AudioFormat};

verus! {

/// Application configuration, one field per `AUDIFY_<FIELD>` variable.
#[derive(Debug, Clone)]
pub struct Config {
    /// Mistral API key for Voxtral TTS.
    pub mistral_api_key: String,
    /// Base URL of the Mistral API.
    pub mistral_base_url: String,
    /// TTS model identifier.
    pub tts_model: String,
    /// Preset voice id to render with; optional so commands that don't synthesize work without it.
    pub voice_id: Option<String>,
    /// Requested output format: mp3 | wav | pcm | flac | opus.
    pub response_format: String,
    /// Directory rendered audio is written to.
    pub output_dir: String,
    /// Timeout for outbound HTTP calls, in seconds.
    pub http_timeout_secs: u64,
}

pub open spec fn default_base_url() -> Seq<char> {
    "https://api.mistral.ai"@
}

pub open spec fn default_tts_model() -> Seq<char> {
    "voxtral-mini-tts-2603"@
}

pub open spec fn default_response_format() -> Seq<char> {
    "mp3"@
}

pub open spec fn default_output_dir() -> Seq<char> {
    "./output"@
}

/// Default base URL of the Mistral API.
pub fn base_url() -> (res: String)
    ensures
        res@ == default_base_url(),
{
    let mut s = String::new();
    s.push_str("https://api.mistral.ai");
    s
}

/// Default TTS model identifier.
pub fn tts_model() -> (res: String)
    ensures
        res@ == default_tts_model(),
{
    let mut s = String::new();
    s.push_str("voxtral-mini-tts-2603");
    s
}

/// Default output format.
pub fn response_format() -> (res: String)
    ensures
        res@ == default_response_format(),
{
    let mut s = String::new();
    s.push_str("mp3");
    s
}

/// Default output directory.
pub fn output_dir() -> (res: String)
    ensures
        res@ == default_output_dir(),
{
    let mut s = String::new();
    s.push_str("./output");
    s
}

/// Default HTTP timeout, in seconds.
pub fn http_timeout_secs() -> (res: u64)
    ensures
        res == 120,
{
    120
}

/// The configuration as text and numbers.
#[verifier::ext_equal]
pub ghost struct ConfigView {
    pub mistral_api_key: Seq<char>,
    pub mistral_base_url: Seq<char>,
    pub tts_model: Seq<char>,
    pub voice_id: Option<Seq<char>>,
    pub response_format: Seq<char>,
    pub output_dir: Seq<char>,
    pub http_timeout_secs: u64,
}

impl View for Config {
    type V = ConfigView;

    open spec fn view(&self) -> ConfigView {
        ConfigView {
            mistral_api_key: self.mistral_api_key@,
            mistral_base_url: self.mistral_base_url@,
            tts_model: self.tts_model@,
            voice_id: crate::types::opt_view(self.voice_id),
            response_format: self.response_format@,
            output_dir: self.output_dir@,
            http_timeout_secs: self.http_timeout_secs,
        }
    }
}


/// What is wrong with a configuration, if anything: an empty API key, a zero
/// timeout, or an unknown output format, checked in that order.
pub open spec fn config_problem(c: ConfigView) -> Option<Seq<char>> {
    if trim_ws(c.mistral_api_key).len() == 0 {
        Some("AUDIFY_MISTRAL_API_KEY must not be empty"@)
    } else if c.http_timeout_secs == 0 {
        Some("AUDIFY_HTTP_TIMEOUT_SECS must be greater than 0"@)
    } else if format_named(ascii_lower(trim_ws(c.response_format))) is None {
        Some("unsupported audio format: "@ + ascii_lower(trim_ws(c.response_format)))
    } else {
        None
    }
}


fn owned(lit: &str) -> (res: String)
    ensures
        res@ == lit@,
{
    let mut s = String::new();
    s.push_str(lit);
    s
}

impl Config {
    /// Accepts the configuration read from the environment and validates it.
    /// `read` is what reading gave: the configuration, or the text of the
    /// error that reading it raised, which becomes a configuration error.
    pub fn load(read: Result<Config, String>) -> (res: Result<Config, Error>)
        ensures
            match read {
                Err(m) => res matches Err(Error::Config(mm)) && mm == m,
                Ok(c) => match config_problem(c@) {
                    None => res matches Ok(x) && x@ == c@,
                    Some(m) => res matches Err(Error::Config(mm)) && mm@ == m,
                },
            },
    {
        match read {
            Err(m) => Err(Error::Config(m)),
            Ok(cfg) => match cfg.validate() {
                Ok(()) => Ok(cfg),
                Err(e) => Err(e),
            },
        }
    }
    /// The parsed, validated audio format.
    pub fn audio_format(&self) -> (res: Result<AudioFormat, Error>)
        ensures
            match format_named(ascii_lower(trim_ws(self.response_format@))) {
                Some(f) => res == Ok::<AudioFormat, Error>(f),
                None => res matches Err(Error::Config(m)) && m@ == "unsupported audio format: "@
                    + ascii_lower(trim_ws(self.response_format@)),
            },
    {
        AudioFormat::parse(self.response_format.as_str())
    }

    /// The configured voice id, trimmed, or an error if none is set.
    pub fn require_voice_id(&self) -> (res: Result<&str, Error>)
        ensures
            match self.voice_id {
                Some(v) if trim_ws(v@).len() > 0 => res matches Ok(s) && s@ == trim_ws(v@),
                _ => res matches Err(Error::Config(m)) && m@ == "AUDIFY_VOICE_ID is not set — run `audify voices` to list available voice ids"@,
            },
    {
        match &self.voice_id {
            Some(v) => {
                let t = v.as_str().trim();
                if !t.is_empty() {
                    return Ok(t);
                }
            },
            None => {},
        }
        Err(Error::Config(owned("AUDIFY_VOICE_ID is not set — run `audify voices` to list available voice ids")))
    }

    /// Checks what field types cannot: a non-empty key, a positive timeout
    /// and a known format. The voice id is not checked here: it is needed
    /// only by commands that synthesize.
    pub fn validate(&self) -> (res: Result<(), Error>)
        ensures
            res is Err <==> (trim_ws(self.mistral_api_key@).len() == 0 || self.http_timeout_secs
                == 0 || format_named(ascii_lower(trim_ws(self.response_format@))) is None),
            match config_problem(self@) {
                None => res is Ok,
                Some(m) => res matches Err(Error::Config(mm)) && mm@ == m,
            },
    {
        if self.mistral_api_key.as_str().trim().is_empty() {
            return Err(Error::Config(owned("AUDIFY_MISTRAL_API_KEY must not be empty")));
        }
        if self.http_timeout_secs == 0 {
            return Err(Error::Config(owned("AUDIFY_HTTP_TIMEOUT_SECS must be greater than 0")));
        }
        match self.audio_format() {
            Ok(_) => Ok(()),
            Err(e) => Err(e),
        }
    }
}


/// A configuration that passes validation, and so loads, is valid: a
/// non-blank API key, a positive timeout and a known output format, so
/// nothing fails on them later.
pub proof fn law_loaded_config_is_valid(c: ConfigView)
    ensures
        config_problem(c) is None ==> {
            &&& trim_ws(c.mistral_api_key).len() > 0
            &&& c.http_timeout_secs > 0
            &&& format_named(ascii_lower(trim_ws(c.response_format))) is Some
        },
{
}

/// A configuration is refused exactly when its API key is blank, its timeout
/// is zero or its output format is unknown; the voice id plays no part, so a
/// configuration without one passes.
pub proof fn law_config_problems(c: ConfigView, voice: Option<Seq<char>>)
    ensures
        config_problem(c) is Some <==> (trim_ws(c.mistral_api_key).len() == 0
            || c.http_timeout_secs == 0 || format_named(ascii_lower(trim_ws(c.response_format)))
            is None),
        config_problem(c) == config_problem((ConfigView { voice_id: voice, ..c })),
{
}

} // verus!
