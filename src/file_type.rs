use vstd::prelude::*;

verus! {

/// What a file holds, judged from its first bytes.
#[derive(Debug, Clone, Copy, PartialEq, Eq, Structural)]
pub enum FileType {
    Image,
    Video,
    Unknown,
}

/// The MIME type that the signature of `b` matches, if any.
pub uninterp spec fn sniffed_mime(b: Seq<u8>) -> Option<Seq<char>>;

/// Relies on `infer::get` and `infer::Type::mime_type`: the MIME type of the first
/// known signature that the bytes match, found from the bytes alone.
#[verifier::external_body]
fn sniff_mime(buf: &[u8]) -> (r: Option<&'static str>)
    ensures
        r is None <==> sniffed_mime(buf@) is None,
        r matches Some(m) ==> sniffed_mime(buf@) == Some(m@),
{
    match infer::get(buf) {
        Some(kind) => Some(kind.mime_type()),
        None => None,
    }
}

/// `s` starts with `p`.
pub open spec fn has_prefix(s: Seq<char>, p: Seq<char>) -> bool {
    p.len() <= s.len() && s.subrange(0, p.len() as int) == p
}

/// The kind of file that a MIME type names: its top-level type `image` or `video`.
pub open spec fn file_type_of(mime: Option<Seq<char>>) -> FileType {
    match mime {
        Some(m) => if has_prefix(m, "image/"@) {
            FileType::Image
        } else if has_prefix(m, "video/"@) {
            FileType::Video
        } else {
            FileType::Unknown
        },
        None => FileType::Unknown,
    }
}

/// Whether `s` starts with `p`.
pub fn starts_with(s: &str, p: &str) -> (r: bool)
    ensures
        r == has_prefix(s@, p@),
{
    let n = s.unicode_len();
    let m = p.unicode_len();
    if m > n {
        return false;
    }
    let mut i: usize = 0;
    while i < m
        invariant
            n == s@.len(),
            m == p@.len(),
            m <= n,
            i <= m,
            forall|j: int| 0 <= j < i ==> s@[j] == p@[j],
        decreases m - i,
    {
        if s.get_char(i) != p.get_char(i) {
            assert(s@.subrange(0, m as int)[i as int] != p@[i as int]);
            return false;
        }
        i += 1;
    }
    assert(s@.subrange(0, m as int) =~= p@);
    true
}

/// The kind of file whose contents are `buf`: an image or a video when the MIME
/// type of its signature says so, else unknown.
pub fn infer_type(buf: &[u8]) -> (r: FileType)
    ensures
        r == file_type_of(sniffed_mime(buf@)),
{
    match sniff_mime(buf) {
        Some(mime) => file_type_of_mime(mime),
        None => FileType::Unknown,
    }
}

/// The kind of file that the MIME type `mime` names.
pub fn file_type_of_mime(mime: &str) -> (r: FileType)
    ensures
        r == file_type_of(Some(mime@)),
{
    if starts_with(mime, "image/") {
        FileType::Image
    } else if starts_with(mime, "video/") {
        FileType::Video
    } else {
        FileType::Unknown
    }
}

} // verus!
