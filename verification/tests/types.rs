use audify::error::Error;
use audify::types::{AudioFormat, Document, EpisodeStatus, JobState, Section};

#[test]
fn format_extensions() {
    assert_eq!(AudioFormat::Mp3.extension(), "mp3");
    assert_eq!(AudioFormat::Wav.extension(), "wav");
    assert_eq!(AudioFormat::Pcm.extension(), "pcm");
    assert_eq!(AudioFormat::Flac.extension(), "flac");
    assert_eq!(AudioFormat::Opus.extension(), "opus");
    assert_eq!(AudioFormat::Opus.as_api_str(), "opus");
}

#[test]
fn format_names_read_back() {
    for f in [
        AudioFormat::Mp3,
        AudioFormat::Wav,
        AudioFormat::Pcm,
        AudioFormat::Flac,
        AudioFormat::Opus,
    ] {
        assert_eq!(AudioFormat::parse(f.extension()).unwrap(), f);
        assert_eq!(f.extension().parse::<AudioFormat>().unwrap(), f);
    }
    assert_eq!(AudioFormat::parse("  FlAc\n").unwrap(), AudioFormat::Flac);
}

#[test]
fn unknown_format_names() {
    match AudioFormat::parse(" Ogg ") {
        Err(Error::Config(m)) => assert_eq!(m, "unsupported audio format: ogg"),
        other => panic!("unexpected {other:?}"),
    }
}

#[test]
fn status_names_read_back() {
    for s in [
        EpisodeStatus::Pending,
        EpisodeStatus::Processing,
        EpisodeStatus::Ready,
        EpisodeStatus::Failed,
    ] {
        assert_eq!(EpisodeStatus::parse(s.as_str()).unwrap(), s);
    }
    assert_eq!(EpisodeStatus::Processing.as_str(), "processing");
    match EpisodeStatus::parse("READY") {
        Err(Error::Database(m)) => assert_eq!(m, "invalid EpisodeStatus: READY"),
        other => panic!("unexpected {other:?}"),
    }
}

#[test]
fn job_state_names_read_back() {
    for s in [
        JobState::Pending,
        JobState::Extracting,
        JobState::Normalizing,
        JobState::Segmenting,
        JobState::Synthesizing,
        JobState::Assembling,
        JobState::Ready,
        JobState::Failed,
    ] {
        assert_eq!(JobState::parse(s.as_str()).unwrap(), s);
    }
    assert_eq!(JobState::Synthesizing.as_str(), "synthesizing");
    match JobState::parse("done") {
        Err(Error::Database(m)) => assert_eq!(m, "invalid JobState: done"),
        other => panic!("unexpected {other:?}"),
    }
}

#[test]
fn document_counts_body_characters() {
    let d = Document {
        title: Some("A long title that is not counted".into()),
        sections: vec![
            Section {
                heading: Some("Heading".into()),
                paragraphs: vec!["héllo".into(), "ab".into()],
            },
            Section {
                heading: None,
                paragraphs: vec![],
            },
            Section {
                heading: None,
                paragraphs: vec!["xyz".into()],
            },
        ],
    };
    assert_eq!(d.char_count(), 10);
    assert!(!d.is_empty());
    let e = Document {
        title: None,
        sections: vec![Section {
            heading: Some("Only a heading".into()),
            paragraphs: vec![],
        }],
    };
    assert!(e.is_empty());
    assert_eq!(e.char_count(), 0);
    assert!(Document::default().is_empty());
}

#[test]
fn error_messages() {
    assert_eq!(Error::Config("x".into()).message(), "configuration error: x");
    assert_eq!(Error::InvalidSource("x".into()).message(), "invalid source: x");
    assert_eq!(Error::Extraction("x".into()).message(), "extraction failed: x");
    assert_eq!(Error::Synthesis("x".into()).message(), "synthesis failed: x");
    assert_eq!(Error::Storage("x".into()).message(), "storage error: x");
    assert_eq!(Error::Http("x".into()).message(), "http error: x");
    assert_eq!(Error::Database("x".into()).message(), "database error: x");
}
