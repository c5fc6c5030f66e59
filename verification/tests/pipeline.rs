use audify::pipeline::hex_prefix;
use audify::assemble::{check_chunks, chunk_file_name, concat_line};
use audify::error::Error;
use audify::pipeline::{
    after_claim, check_extracted, source_from_args, chunk_audio_name, continue_after_job, count_as_i32,
    episode_audio_key, estimate_duration_secs, object_key, reuse_chunk_rows, sha256_hex,
    source_descriptor, source_key, speakable_chars, use_cached_chunk, ClaimOutcome, ProcessOutput, WorkerStep,
};
use audify::storage::LocalStorage;
use audify::synth::{decode_audio, speech_endpoint, voices_endpoint};
use audify::types::{Audio, AudioFormat, Document, Section, Source};

#[test]
fn extracted_documents_must_have_text() {
    match check_extracted(&Document::default()) {
        Err(Error::Extraction(m)) => assert_eq!(m, "no content extracted from source"),
        other => panic!("unexpected {other:?}"),
    }
    let d = Document {
        title: None,
        sections: vec![Section {
            heading: None,
            paragraphs: vec!["four".into()],
        }],
    };
    assert_eq!(check_extracted(&d).unwrap(), 4);
}

#[test]
fn keys_and_names() {
    assert_eq!(object_key("abc", AudioFormat::Mp3), "abc.mp3");
    assert_eq!(object_key("a.b", AudioFormat::Flac), "a.b.flac");
    assert_eq!(episode_audio_key("42"), "42.mp3");
    assert_eq!(chunk_audio_name(0), "0.wav");
    assert_eq!(chunk_audio_name(12), "12.wav");
    assert_eq!(chunk_audio_name(-3), "-3.wav");
    assert_eq!(chunk_file_name(7, AudioFormat::Wav), "chunk_7.wav");
}

#[test]
fn duration_estimate_rounds_to_nearest_second() {
    assert_eq!(estimate_duration_secs(0), 0);
    assert_eq!(estimate_duration_secs(6), 0);
    assert_eq!(estimate_duration_secs(7), 1);
    assert_eq!(estimate_duration_secs(25), 2);
    assert_eq!(estimate_duration_secs(31), 2);
    assert_eq!(estimate_duration_secs(32), 3);
    assert_eq!(estimate_duration_secs(-32), -3);
    assert_eq!(estimate_duration_secs(12500), 1000);
    for c in [0i32, 1, 6, 7, 18, 19, 1000, 123457, i32::MAX, -5, i32::MIN] {
        assert_eq!(estimate_duration_secs(c), (c as f64 / 12.5).round() as i32);
    }
}

#[test]
fn worker_decisions() {
    assert!(reuse_chunk_rows(3, 3));
    assert!(!reuse_chunk_rows(0, 0));
    assert!(!reuse_chunk_rows(2, 3));
    assert_eq!(after_claim(ClaimOutcome::Claimed, true), WorkerStep::Process);
    assert_eq!(after_claim(ClaimOutcome::Empty, true), WorkerStep::Stop);
    assert_eq!(after_claim(ClaimOutcome::Empty, false), WorkerStep::Sleep);
    assert_eq!(after_claim(ClaimOutcome::Failed, false), WorkerStep::Sleep);
    assert!(continue_after_job(false));
    assert!(!continue_after_job(true));
    assert_eq!(count_as_i32(17), 17);
    assert_eq!(count_as_i32(usize::MAX), i32::MAX);
}

#[test]
fn hashes_and_source_descriptors() {
    assert_eq!(
        sha256_hex("abc"),
        "ba7816bf8f01cfea414140de5dae2223b00361a396177a9cb410ff61f20015ad"
    );
    assert_eq!(source_key(&Source::Url("abc".into())), "ba7816bf8f01cfea");
    assert_eq!(source_key(&Source::Text("abc".into())), "ba7816bf8f01cfea");
    let (t, r) = source_descriptor(&Source::Url("http://x".into()));
    assert_eq!((t.as_str(), r.as_str()), ("url", "http://x"));
    let long: String = "é".repeat(130);
    let (t, r) = source_descriptor(&Source::Text(long));
    assert_eq!(t, "text");
    assert_eq!(r, "é".repeat(120));
    let (t, r) = source_descriptor(&Source::File("/tmp/p.pdf".into()));
    assert_eq!((t.as_str(), r.as_str()), ("file", "/tmp/p.pdf"));
}

#[test]
fn audio_responses_are_base64() {
    let a = decode_audio("aGVsbG8=", AudioFormat::Wav).unwrap();
    assert_eq!(a.bytes, b"hello".to_vec());
    assert_eq!(a.format, AudioFormat::Wav);
    match decode_audio("!!not base64", AudioFormat::Mp3) {
        Err(Error::Synthesis(m)) => assert!(m.starts_with("decoding base64 audio: ")),
        other => panic!("unexpected {other:?}"),
    }
}

#[test]
fn endpoints() {
    assert_eq!(
        speech_endpoint("https://api.mistral.ai//"),
        "https://api.mistral.ai/v1/audio/speech"
    );
    assert_eq!(voices_endpoint("http://h"), "http://h/v1/audio/voices");
}

#[test]
fn assembly_helpers() {
    match check_chunks(&vec![]) {
        Err(Error::Synthesis(m)) => assert_eq!(m, "no audio chunks to assemble"),
        other => panic!("unexpected {other:?}"),
    }
    assert!(check_chunks(&vec![Audio {
        bytes: vec![1],
        format: AudioFormat::Wav
    }])
    .is_ok());
    assert_eq!(concat_line("C:\\tmp\\it's.wav"), "file 'C:/tmp/it'\\''s.wav'\n");
}

#[test]
fn outputs_and_storage() {
    let o = ProcessOutput::new("p".into(), Some("t".into()), 3, 9);
    assert_eq!(o.path, "p");
    assert_eq!(o.title.as_deref(), Some("t"));
    assert_eq!((o.char_count, o.audio_bytes), (3, 9));
    let s = LocalStorage::new("/tmp/out");
    assert_eq!(s.base_dir(), &std::path::PathBuf::from("/tmp/out"));
}

#[test]
fn source_arguments() {
    assert_eq!(
        source_from_args(Some("u".into()), Some("t".into())),
        Some(Source::Url("u".into()))
    );
    assert_eq!(
        source_from_args(None, Some("t".into())),
        Some(Source::Text("t".into()))
    );
    assert_eq!(source_from_args(None, None), None);
}

#[test]
fn speakable_text_is_counted_in_characters() {
    assert_eq!(speakable_chars(""), 0);
    assert_eq!(speakable_chars("héllo wörld"), 11);
    assert_eq!(speakable_chars("Title.\n\nBody."), 13);
}

#[test]
fn cached_chunk_audio_needs_path_and_file() {
    assert!(use_cached_chunk(true, true));
    assert!(!use_cached_chunk(true, false));
    assert!(!use_cached_chunk(false, true));
    assert!(!use_cached_chunk(false, false));
}

#[test]
fn file_sources_are_described_and_keyed_by_path_text() {
    let (t, r) = source_descriptor(&Source::File("docs/paper one.pdf".into()));
    assert_eq!(t, "file");
    assert_eq!(r, "docs/paper one.pdf");
    assert_eq!(
        source_key(&Source::File("abc".into())),
        source_key(&Source::Text("abc".into()))
    );
}

#[test]
fn hex_of_a_prefix() {
    assert_eq!(hex_prefix(&vec![0x0f, 0xa0, 0xff], 2), "0fa0");
    assert_eq!(hex_prefix(&vec![0x0f, 0xa0, 0xff], 3), "0fa0ff");
    assert_eq!(hex_prefix(&vec![1], 0), "");
}
