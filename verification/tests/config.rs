use audify::config::{base_url, http_timeout_secs, output_dir, response_format, tts_model, Config};
use audify::error::Error;
use audify::types::AudioFormat;

fn base() -> Config {
    Config {
        mistral_api_key: "k".into(),
        mistral_base_url: base_url(),
        tts_model: tts_model(),
        voice_id: None,
        response_format: response_format(),
        output_dir: output_dir(),
        http_timeout_secs: http_timeout_secs(),
    }
}

fn config_error(read: Result<Config, String>) -> String {
    match Config::load(read) {
        Err(Error::Config(m)) => m,
        other => panic!("expected a configuration error, got {other:?}"),
    }
}

#[test]
fn defaults() {
    assert_eq!(base_url(), "https://api.mistral.ai");
    assert_eq!(tts_model(), "voxtral-mini-tts-2603");
    assert_eq!(response_format(), "mp3");
    assert_eq!(output_dir(), "./output");
    assert_eq!(http_timeout_secs(), 120);
}

#[test]
fn a_valid_configuration_loads_unchanged() {
    let c = Config::load(Ok(base())).unwrap();
    assert_eq!(c.mistral_api_key, "k");
    assert_eq!(c.mistral_base_url, "https://api.mistral.ai");
    assert_eq!(c.tts_model, "voxtral-mini-tts-2603");
    assert_eq!(c.voice_id, None);
    assert_eq!(c.response_format, "mp3");
    assert_eq!(c.output_dir, "./output");
    assert_eq!(c.http_timeout_secs, 120);
    assert_eq!(c.audio_format().unwrap(), AudioFormat::Mp3);
}

#[test]
fn reading_errors_pass_through_as_configuration_errors() {
    assert_eq!(
        config_error(Err("missing field `mistral_api_key`".into())),
        "missing field `mistral_api_key`"
    );
    // A real error of the `config` crate: a value that is not a number.
    let env: std::collections::HashMap<String, String> =
        [("AUDIFY_HTTP_TIMEOUT_SECS".to_string(), "abc".to_string())].into_iter().collect();
    let read = config::Config::builder()
        .add_source(config::Environment::with_prefix("AUDIFY").source(Some(env)))
        .build()
        .unwrap()
        .try_deserialize::<std::collections::HashMap<String, u64>>()
        .map_err(|e| e.to_string());
    let text = read.clone().unwrap_err();
    assert!(!text.is_empty());
    assert_eq!(config_error(read.map(|_| base())), text);
}

#[test]
fn blank_key_is_an_error() {
    let mut c = base();
    c.mistral_api_key = "  ".into();
    assert_eq!(config_error(Ok(c)), "AUDIFY_MISTRAL_API_KEY must not be empty");
}

#[test]
fn zero_timeout_is_an_error() {
    let mut c = base();
    c.http_timeout_secs = 0;
    assert_eq!(config_error(Ok(c)), "AUDIFY_HTTP_TIMEOUT_SECS must be greater than 0");
}

#[test]
fn unknown_format_is_an_error() {
    let mut c = base();
    c.response_format = " OGG ".into();
    assert_eq!(config_error(Ok(c)), "unsupported audio format: ogg");
    let mut c = base();
    c.response_format = " WAV".into();
    assert_eq!(Config::load(Ok(c)).unwrap().audio_format().unwrap(), AudioFormat::Wav);
}

#[test]
fn problems_are_reported_in_order() {
    let mut c = base();
    c.mistral_api_key = "".into();
    c.http_timeout_secs = 0;
    c.response_format = "ogg".into();
    assert_eq!(config_error(Ok(c.clone())), "AUDIFY_MISTRAL_API_KEY must not be empty");
    c.mistral_api_key = "k".into();
    assert_eq!(config_error(Ok(c)), "AUDIFY_HTTP_TIMEOUT_SECS must be greater than 0");
}

#[test]
fn voice_id_must_be_set_to_synthesize() {
    let msg = "AUDIFY_VOICE_ID is not set — run `audify voices` to list available voice ids";
    for voice in [None, Some("   ".to_string())] {
        let mut c = base();
        c.voice_id = voice;
        let c = Config::load(Ok(c)).unwrap();
        match c.require_voice_id() {
            Err(Error::Config(m)) => assert_eq!(m, msg),
            other => panic!("unexpected {other:?}"),
        }
    }
    let mut c = base();
    c.voice_id = Some(" v ".into());
    assert_eq!(c.require_voice_id().unwrap(), "v");
}

#[test]
fn a_loaded_config_is_valid() {
    let mut c = base();
    c.mistral_api_key = " key ".into();
    let c = Config::load(Ok(c)).unwrap();
    assert!(!c.mistral_api_key.trim().is_empty());
    assert!(c.http_timeout_secs > 0);
    assert!(c.audio_format().is_ok());
}

#[test]
fn validation_ignores_the_voice_id() {
    let mut c = base();
    assert!(c.validate().is_ok());
    c.voice_id = Some("  ".into());
    assert!(c.validate().is_ok());
    c.mistral_api_key = "  ".into();
    c.http_timeout_secs = 0;
    match c.validate() {
        Err(Error::Config(m)) => assert_eq!(m, "AUDIFY_MISTRAL_API_KEY must not be empty"),
        other => panic!("unexpected {other:?}"),
    }
}
