//! Symbol detection boundary: decoding of the submitted raster image and the
//! shape of detections. The detector model itself is an external collaborator;
//! with none bundled, detection yields no symbols.
use vstd::prelude::*;
use base64::Engine;

verus! {

/// An axis-aligned detection box with a label and a confidence score in
/// thousandths (`0..=1000` stands for `0.0..=1.0`).
#[derive(Clone, Debug)]
pub struct Det {
    pub x: i64,
    pub y: i64,
    pub w: i64,
    pub h: i64,
    pub label: String,
    pub score: u32,
}

impl Det {
    /// The score is a probability in thousandths.
    pub open spec fn wf(self) -> bool {
        self.score <= 1000
    }
}

/// What the standard base64 alphabet decodes a text to, or nothing when the
/// text is not valid base64. The result depends on the text alone.
pub uninterp spec fn b64_decoded(s: Seq<char>) -> Option<Seq<u8>>;

/// Relies on base64's `Engine::decode` with the standard alphabet: decoding
/// is a pure function of the input text, and an empty text decodes to no
/// bytes.
#[verifier::external_body]
fn decode_base64(s: &str) -> (r: Result<Vec<u8>, ()>)
    ensures
        match r {
            Ok(v) => b64_decoded(s@) == Some(v@),
            Err(_) => b64_decoded(s@) is None,
        },
        s@.len() == 0 ==> r is Ok,
{
    match base64::engine::general_purpose::STANDARD.decode(s) {
        Ok(v) => Ok(v),
        Err(_) => Err(()),
    }
}

/// Decode the submitted image and run symbol detection. No detector model is
/// bundled with this build, so a well-formed image yields an empty detection
/// list; a text that is not valid base64 is rejected with a message.
pub fn detect_symbols(image_png_base64: String) -> (r: Result<Vec<Det>, String>)
    ensures
        r is Ok <==> b64_decoded(image_png_base64@) is Some,
        r matches Ok(v) ==> v@.len() == 0,
        r matches Err(e) ==> e@.len() > 0,
{
    match decode_base64(image_png_base64.as_str()) {
        Ok(_bytes) => Ok(Vec::new()),
        Err(_) => {
            let msg = String::from_str("invalid base64 image");
            proof {
                reveal_strlit("invalid base64 image");
            }
            Err(msg)
        },
    }
}

} // verus!
