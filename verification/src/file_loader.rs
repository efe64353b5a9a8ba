//! The decisions of the loaders that bring image files into the interface.
use crate::paths::{
    contains, contains_seq, extension, extension_of, file_name, file_name_of, lemma_file_name_shorter,
    occurs_at, same_text, starts_with,
};
use vstd::prelude::*;

verus! {

/// Loads `file://` addresses by reading the file at once.
pub struct BlockingFileLoader {}

/// Decodes images with the `image` crate.
pub struct ImageCrateLoader {}

/// Turns decoded images into textures.
pub struct BoundrsTextureLoader {}

pub open spec fn file_protocol() -> Seq<char> {
    seq!['f', 'i', 'l', 'e', ':', '/', '/']
}

pub open spec fn svg_text() -> Seq<char> {
    seq!['s', 'v', 'g']
}

/// The signatures that `image::guess_format` looks for at the start of the
/// bytes, one per format it knows.
pub open spec fn image_signatures() -> Seq<Seq<u8>> {
    seq![
        // PNG
        seq![0x89u8, 0x50u8, 0x4eu8, 0x47u8, 0x0du8, 0x0au8, 0x1au8, 0x0au8],
        // JPEG
        seq![0xffu8, 0xd8u8, 0xffu8],
        // GIF89a
        seq![0x47u8, 0x49u8, 0x46u8, 0x38u8, 0x39u8, 0x61u8],
        // GIF87a
        seq![0x47u8, 0x49u8, 0x46u8, 0x38u8, 0x37u8, 0x61u8],
        // RIFF (WebP)
        seq![0x52u8, 0x49u8, 0x46u8, 0x46u8],
        // TIFF, big-endian
        seq![0x4du8, 0x4du8, 0x00u8, 0x2au8],
        // TIFF, little-endian
        seq![0x49u8, 0x49u8, 0x2au8, 0x00u8],
        // DDS
        seq![0x44u8, 0x44u8, 0x53u8, 0x20u8],
        // BMP
        seq![0x42u8, 0x4du8],
        // ICO
        seq![0x00u8, 0x00u8, 0x01u8, 0x00u8],
        // Radiance HDR
        seq![0x23u8, 0x3fu8, 0x52u8, 0x41u8, 0x44u8, 0x49u8, 0x41u8, 0x4eu8, 0x43u8, 0x45u8],
        // PNM P1
        seq![0x50u8, 0x31u8],
        // PNM P2
        seq![0x50u8, 0x32u8],
        // PNM P3
        seq![0x50u8, 0x33u8],
        // PNM P4
        seq![0x50u8, 0x34u8],
        // PNM P5
        seq![0x50u8, 0x35u8],
        // PNM P6
        seq![0x50u8, 0x36u8],
        // PNM P7
        seq![0x50u8, 0x37u8],
        // farbfeld
        seq![0x66u8, 0x61u8, 0x72u8, 0x62u8, 0x66u8, 0x65u8, 0x6cu8, 0x64u8],
        // AVIF
        seq![0x00u8, 0x00u8, 0x00u8, 0x20u8, 0x66u8, 0x74u8, 0x79u8, 0x70u8, 0x61u8, 0x76u8, 0x69u8, 0x66u8],
        // AVIF
        seq![0x00u8, 0x00u8, 0x00u8, 0x1cu8, 0x66u8, 0x74u8, 0x79u8, 0x70u8, 0x61u8, 0x76u8, 0x69u8, 0x66u8],
        // OpenEXR
        seq![0x76u8, 0x2fu8, 0x31u8, 0x01u8],
        // QOI
        seq![0x71u8, 0x6fu8, 0x69u8, 0x66u8],
    ]
}

/// Whether `bytes` begins with `signature`.
pub open spec fn begins_with(bytes: Seq<u8>, signature: Seq<u8>) -> bool {
    signature.len() <= bytes.len() && bytes.subrange(0, signature.len() as int) == signature
}

/// What `image::guess_format` makes of the bytes: whether they begin with
/// the signature of an image format that the crate knows.
pub open spec fn image_format_recognized(bytes: Seq<u8>) -> bool {
    exists|k: int| 0 <= k < image_signatures().len() && begins_with(bytes, #[trigger] image_signatures()[k])
}

/// Calls `image::guess_format`: true when it names a format for the bytes,
/// which it does exactly when they begin with one of its signatures.
#[verifier::external_body]
fn guess_format_succeeds(bytes: &[u8]) -> (r: bool)
    ensures
        r == image_format_recognized(bytes@),
{
    image::guess_format(bytes).is_ok()
}

/// An address is worth trying unless the file name ends in the extension
/// `svg`; an address with no file name or no extension is tried.
pub open spec fn supported_uri(uri: Seq<char>) -> bool {
    match file_name_of(uri) {
        None => true,
        Some(name) => match extension_of(name) {
            None => true,
            Some(ext) => ext != svg_text(),
        },
    }
}

/// Whether the image loader tries an address (see `supported_uri`).
pub fn is_supported_uri(uri: &str) -> (r: bool)
    requires
        uri@.len() < i64::MAX,
    ensures
        r == supported_uri(uri@),
{
    match file_name(uri) {
        None => true,
        Some(name) => {
            proof {
                lemma_file_name_shorter(uri@);
                reveal_strlit("svg");
                assert("svg"@ =~= svg_text());
            }
            match extension(name.as_str()) {
                None => true,
                Some(ext) => !same_text(ext.as_str(), "svg"),
            }
        },
    }
}

/// Whether a MIME type is one the image loader refuses: one that mentions
/// `svg`.
pub fn is_unsupported_mime(mime: &str) -> (r: bool)
    ensures
        r == contains_seq(mime@, svg_text()),
{
    proof {
        reveal_strlit("svg");
        assert("svg"@ =~= svg_text());
    }
    contains(mime, "svg")
}



impl BlockingFileLoader {
    pub fn id(&self) -> (r: &'static str)
        ensures
            r@ == seq![
                'b',
                'o',
                'u',
                'n',
                'd',
                'r',
                's',
                ':',
                ':',
                'f',
                'i',
                'l',
                'e',
                '_',
                'l',
                'o',
                'a',
                'd',
                'e',
                'r',
                ':',
                ':',
                'F',
                'i',
                'l',
                'e',
                'L',
                'o',
                'a',
                'd',
                'e',
                'r',
            ],
    {
        proof {
            reveal_strlit("boundrs::file_loader::FileLoader");
        }
        "boundrs::file_loader::FileLoader"
    }

    /// The loader keeps no cache.
    pub fn byte_size(&self) -> (r: usize)
        ensures
            r == 0,
    {
        0
    }

    /// The path that a `file://` address names; none for other addresses,
    /// which this loader does not support.
    pub fn path_of_uri(uri: &str) -> (r: Option<String>)
        ensures
            r is Some <==> occurs_at(uri@, file_protocol(), 0),
            r matches Some(p) ==> uri@ == file_protocol() + p@,
    {
        proof {
            reveal_strlit("file://");
            assert("file://"@ =~= file_protocol());
        }
        if starts_with(uri, "file://") {
            let n = uri.unicode_len();
            let rest = uri.substring_char(7, n);
            assert(uri@ =~= file_protocol() + rest@);
            Some(String::from_str(rest))
        } else {
            None
        }
    }
}

impl Default for BlockingFileLoader {
    fn default() -> (r: BlockingFileLoader) {
        BlockingFileLoader {  }
    }
}

impl ImageCrateLoader {
    pub fn id(&self) -> (r: &'static str)
        ensures
            r@ == seq![
                'b',
                'o',
                'u',
                'n',
                'd',
                'r',
                's',
                ':',
                ':',
                'f',
                'i',
                'l',
                'e',
                '_',
                'l',
                'o',
                'a',
                'd',
                'e',
                'r',
                ':',
                ':',
                'I',
                'm',
                'a',
                'g',
                'e',
                'C',
                'r',
                'a',
                't',
                'e',
                'L',
                'o',
                'a',
                'd',
                'e',
                'r',
            ],
    {
        proof {
            reveal_strlit("boundrs::file_loader::ImageCrateLoader");
        }
        "boundrs::file_loader::ImageCrateLoader"
    }

    /// The loader keeps no cache.
    pub fn byte_size(&self) -> (r: usize)
        ensures
            r == 0,
    {
        0
    }

    /// Whether loaded bytes are decoded: not when their MIME type mentions
    /// `svg`, nor when `image::guess_format` recognizes no format.
    pub fn bytes_supported(mime: Option<&str>, bytes: &[u8]) -> (r: bool)
        ensures
            r == (!(mime matches Some(m) && contains_seq(m@, svg_text())) && image_format_recognized(
                bytes@,
            )),
    {
        let refused_mime = match mime {
            Some(m) => is_unsupported_mime(m),
            None => false,
        };
        if refused_mime {
            return false;
        }
        guess_format_succeeds(bytes)
    }
}

impl Default for ImageCrateLoader {
    fn default() -> (r: ImageCrateLoader) {
        ImageCrateLoader {  }
    }
}

impl BoundrsTextureLoader {
    pub fn id(&self) -> (r: &'static str)
        ensures
            r@ == seq![
                'b',
                'o',
                'u',
                'n',
                'd',
                'r',
                's',
                ':',
                ':',
                'f',
                'i',
                'l',
                'e',
                '_',
                'l',
                'o',
                'a',
                'd',
                'e',
                'r',
                ':',
                ':',
                'D',
                'e',
                'f',
                'a',
                'u',
                'l',
                't',
                'T',
                'e',
                'x',
                't',
                'u',
                'r',
                'e',
                'L',
                'o',
                'a',
                'd',
                'e',
                'r',
            ],
    {
        proof {
            reveal_strlit("boundrs::file_loader::DefaultTextureLoader");
        }
        "boundrs::file_loader::DefaultTextureLoader"
    }

    /// The loader keeps no cache.
    pub fn byte_size(&self) -> (r: usize)
        ensures
            r == 0,
    {
        0
    }
}

impl Default for BoundrsTextureLoader {
    fn default() -> (r: BoundrsTextureLoader) {
        BoundrsTextureLoader {  }
    }
}

} // verus!
