//! What the text-to-speech client computes around its HTTP calls: the
//! endpoints it talks to and the audio it gets back.
use vstd::prelude::*;
use vstd::string::StrSliceExecFns;
use vstd::utf8::encode_utf8;

use crate::error::Error;
use crate::feed::{base64_decode, base64_standard_decode, trim_trailing_slashes, without_trailing_slashes};
use crate::types::{Audio, AudioFormat};

verus! {

/// The speech endpoint under a base URL.
pub fn speech_endpoint(base_url: &str) -> (res: String)
    ensures
        res@ == without_trailing_slashes(base_url@) + "/v1/audio/speech"@,
{
    let mut s = trim_trailing_slashes(base_url);
    s.push_str("/v1/audio/speech");
    s
}

/// The voice-listing endpoint under a base URL.
pub fn voices_endpoint(base_url: &str) -> (res: String)
    ensures
        res@ == without_trailing_slashes(base_url@) + "/v1/audio/voices"@,
{
    let mut s = trim_trailing_slashes(base_url);
    s.push_str("/v1/audio/voices");
    s
}

/// The audio carried Base64-encoded in a speech response, in the requested format.
pub fn decode_audio(audio_data: &str, format: AudioFormat) -> (res: Result<Audio, Error>)
    ensures
        base64_decode(encode_utf8(audio_data@)) is Some <==> res is Ok,
        res matches Ok(a) ==> Some(a.bytes@) == base64_decode(encode_utf8(audio_data@))
            && a.format == format,
        res matches Err(e) ==> (e matches Error::Synthesis(m) && exists|detail: Seq<char>|
            m@ == "decoding base64 audio: "@ + detail),
{
    let input = audio_data.as_bytes_vec();
    match base64_standard_decode(input.as_slice()) {
        Ok(bytes) => Ok(Audio { bytes, format }),
        Err(detail) => {
            let mut m = String::new();
            m.push_str("decoding base64 audio: ");
            m.push_str(detail.as_str());
            assert(m@ == "decoding base64 audio: "@ + detail@);
            Err(Error::Synthesis(m))
        },
    }
}

} // verus!
