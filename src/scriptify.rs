use vstd::prelude::*;
use vstd::string::{StringExecFns, StringSliceAdditionalSpecFns};

verus! {

/// Why a script could not be made.
#[derive(Debug, Clone, Copy, PartialEq, Eq, Structural)]
pub enum ScriptError {
    /// The gzip encoder reported an error.
    Compression,
    /// The compressed text is too long to encode.
    TooLarge,
}

/// The gzip stream (default level, no name, no time stamp) of the bytes `b`.
pub uninterp spec fn gzipped(b: Seq<u8>) -> Seq<u8>;

/// The standard base64 text, with padding, of the bytes `b`.
pub uninterp spec fn base64_text(b: Seq<u8>) -> Seq<char>;

/// Relies on `flate2::write::GzEncoder` (`new` with the default level,
/// `write_all`, `finish`), writing into a `Vec`: on success the gzip stream of
/// the bytes, whose header carries no time stamp.
#[verifier::external_body]
fn gzip(data: &[u8]) -> (r: Option<Vec<u8>>)
    ensures
        r matches Some(z) ==> z@ == gzipped(data@),
{
    let mut encoder = flate2::write::GzEncoder::new(Vec::new(), flate2::Compression::default());
    match std::io::Write::write_all(&mut encoder, data) {
        Ok(()) => encoder.finish().ok(),
        Err(_) => None,
    }
}

/// Relies on `base64::engine::general_purpose::STANDARD.encode`: the standard
/// alphabet with padding. It panics only when the encoded length overflows `usize`.
#[verifier::external_body]
fn base64_encode(data: &Vec<u8>) -> (r: String)
    requires
        data@.len() <= usize::MAX / 2,
    ensures
        r@ == base64_text(data@),
{
    base64::Engine::encode(&base64::engine::general_purpose::STANDARD, data)
}

/// The part of the image script before the encoded text.
pub const IMAGE_HEAD: &'static str = "#!/bin/bash\n\n# BRAILLE_TEXT START\nBRAILLE_TEXT=$(cat <<'EOF' | base64 -d | gzip -d\n";

/// The part of the image script after the encoded text.
pub const IMAGE_TAIL: &'static str = "\nEOF\n)\n# BRAILLE_TEXT END\n\necho \"$BRAILLE_TEXT\"\n";

/// The part of the video script after the encoded text, up to the delay.
pub const VIDEO_MIDDLE: &'static str = "\nEOF\n)\n# BRAILLE_TEXT END\n\nbuffer=\"\"\ndeclare -a array\n\nwhile IFS= read -r line; do\n    if [[ \"$line\" == *,* ]]; then\n        array+=(\"$buffer\")\n        buffer=\"${line#*,}\"\n    else\n        if [[ -n \"$buffer\" ]]; then\n            buffer+=$'\\n'\n        fi\n        buffer+=\"$line\"\n    fi\ndone <<< \"$BRAILLE_TEXT\"\n\nif [[ -n \"$buffer\" ]]; then\n    array+=(\"$buffer\")\nfi\n\n\nESC=$(printf '\\e')\nfor item in \"${array[@]}\"; do\n    echo \"${ESC}$item\"\n    sleep ";

/// The part of the video script after the delay.
pub const VIDEO_TAIL: &'static str = "\ndone\n";

/// The bash script that decodes `encoded` (base64 of gzip) and prints it.
pub open spec fn image_script(encoded: Seq<char>) -> Seq<char> {
    IMAGE_HEAD@ + encoded + IMAGE_TAIL@
}

/// The bash script that decodes `encoded` into frames separated by `,` lines and
/// prints them one after another, `sleep` seconds apart.
pub open spec fn video_script(encoded: Seq<char>, sleep: Seq<char>) -> Seq<char> {
    IMAGE_HEAD@ + encoded + VIDEO_MIDDLE@ + sleep + VIDEO_TAIL@
}

/// The image script around an already compressed text.
pub fn image_script_from_gzip(compressed: &Vec<u8>) -> (r: Result<String, ScriptError>)
    ensures
        compressed@.len() <= usize::MAX / 2 ==> (r matches Ok(t) && t@ == image_script(
            base64_text(compressed@),
        )),
        compressed@.len() > usize::MAX / 2 ==> r == Err::<String, ScriptError>(ScriptError::TooLarge),
{
    if compressed.len() > usize::MAX / 2 {
        return Err(ScriptError::TooLarge);
    }
    let encoded = base64_encode(compressed);
    let mut script = String::from_str(IMAGE_HEAD);
    script.append(encoded.as_str());
    script.append(IMAGE_TAIL);
    Ok(script)
}

/// The video script around an already compressed text, pausing `sleep` (a number of
/// seconds as text) between frames.
pub fn video_script_from_gzip(compressed: &Vec<u8>, sleep: &str) -> (r: Result<String, ScriptError>)
    ensures
        compressed@.len() <= usize::MAX / 2 ==> (r matches Ok(t) && t@ == video_script(
            base64_text(compressed@),
            sleep@,
        )),
        compressed@.len() > usize::MAX / 2 ==> r == Err::<String, ScriptError>(ScriptError::TooLarge),
{
    if compressed.len() > usize::MAX / 2 {
        return Err(ScriptError::TooLarge);
    }
    let encoded = base64_encode(compressed);
    let mut script = String::from_str(IMAGE_HEAD);
    script.append(encoded.as_str());
    script.append(VIDEO_MIDDLE);
    script.append(sleep);
    script.append(VIDEO_TAIL);
    Ok(script)
}

/// A bash script that prints `output`, which it holds compressed and base64-encoded.
pub fn generate_bash_script_for_image(output: &str) -> (r: Result<String, ScriptError>)
    ensures
        r matches Ok(t) ==> t@ == image_script(base64_text(gzipped(output.spec_bytes()))),
        r matches Err(e) ==> e == ScriptError::Compression || e == ScriptError::TooLarge,
{
    match gzip(output.as_bytes()) {
        Some(compressed) => image_script_from_gzip(&compressed),
        None => Err(ScriptError::Compression),
    }
}

/// A bash script that plays back `output`, frames separated by `,` lines,
/// pausing `sleep` seconds (as text) between frames.
pub fn generate_bash_script_for_video(output: &str, sleep: &str) -> (r: Result<String, ScriptError>)
    ensures
        r matches Ok(t) ==> t@ == video_script(base64_text(gzipped(output.spec_bytes())), sleep@),
        r matches Err(e) ==> e == ScriptError::Compression || e == ScriptError::TooLarge,
{
    match gzip(output.as_bytes()) {
        Some(compressed) => video_script_from_gzip(&compressed, sleep),
        None => Err(ScriptError::Compression),
    }
}

} // verus!
