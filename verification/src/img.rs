//! Raster formats, media renaming, and the image re-encoding boundary.

use vstd::prelude::*;
use vstd::string::*;

use crate::Error;

verus! {

/// The raster formats the converter can produce.
#[derive(Clone, Copy, Debug, PartialEq, Eq, Structural)]
pub enum AcceptedFormat {
    Jpeg,
    Png,
}

/// The canonical file extension of a format, as bytes.
pub open spec fn ext_bytes(f: AcceptedFormat) -> Seq<u8> {
    match f {
        AcceptedFormat::Jpeg => "jpg".spec_bytes(),
        AcceptedFormat::Png => "png".spec_bytes(),
    }
}

/// The canonical file extension of a format, as characters.
pub open spec fn ext_chars(f: AcceptedFormat) -> Seq<char> {
    match f {
        AcceptedFormat::Jpeg => "jpg"@,
        AcceptedFormat::Png => "png"@,
    }
}

/// The MIME content type of a format, as characters.
pub open spec fn content_type_chars(f: AcceptedFormat) -> Seq<char> {
    match f {
        AcceptedFormat::Jpeg => "image/jpeg"@,
        AcceptedFormat::Png => "image/png"@,
    }
}

/// The MIME content type of a format, as bytes.
pub open spec fn content_type_bytes(f: AcceptedFormat) -> Seq<u8> {
    match f {
        AcceptedFormat::Jpeg => "image/jpeg".spec_bytes(),
        AcceptedFormat::Png => "image/png".spec_bytes(),
    }
}

/// The display name of a format.
pub open spec fn format_name_chars(f: AcceptedFormat) -> Seq<char> {
    match f {
        AcceptedFormat::Jpeg => "JPEG"@,
        AcceptedFormat::Png => "PNG"@,
    }
}

/// The self-closing content-type declaration element for a format, as characters.
pub open spec fn decl_chars(f: AcceptedFormat) -> Seq<char> {
    match f {
        AcceptedFormat::Jpeg => "<Default Extension=\"jpg\" ContentType=\"image/jpeg\" />"@,
        AcceptedFormat::Png => "<Default Extension=\"png\" ContentType=\"image/png\" />"@,
    }
}

/// The self-closing content-type declaration element for a format, as bytes.
pub open spec fn decl_bytes(f: AcceptedFormat) -> Seq<u8> {
    match f {
        AcceptedFormat::Jpeg => "<Default Extension=\"jpg\" ContentType=\"image/jpeg\" />".spec_bytes(),
        AcceptedFormat::Png => "<Default Extension=\"png\" ContentType=\"image/png\" />".spec_bytes(),
    }
}

impl AcceptedFormat {
    /// The canonical file extension for this format.
    pub fn extension(self) -> (r: &'static str)
        ensures
            r@ == ext_chars(self),
            r.spec_bytes() == ext_bytes(self),
    {
        match self {
            AcceptedFormat::Jpeg => "jpg",
            AcceptedFormat::Png => "png",
        }
    }

    /// The canonical file extension for this format, as a byte vector.
    pub fn extension_bytes(self) -> (r: Vec<u8>)
        ensures
            r@ == ext_bytes(self),
    {
        match self {
            AcceptedFormat::Jpeg => vstd::slice::slice_to_vec(("jpg").as_bytes()),
            AcceptedFormat::Png => vstd::slice::slice_to_vec(("png").as_bytes()),
        }
    }

    /// The MIME content type for this format.
    pub fn content_type(self) -> (r: &'static str)
        ensures
            r@ == content_type_chars(self),
            r.spec_bytes() == content_type_bytes(self),
    {
        match self {
            AcceptedFormat::Jpeg => "image/jpeg",
            AcceptedFormat::Png => "image/png",
        }
    }

    /// The display name for this format.
    pub fn format_name(self) -> (r: &'static str)
        ensures
            r@ == format_name_chars(self),
    {
        match self {
            AcceptedFormat::Jpeg => "JPEG",
            AcceptedFormat::Png => "PNG",
        }
    }

    /// The self-closing content-type declaration element for this format.
    pub fn content_type_decl(self) -> (r: String)
        ensures
            r@ == decl_chars(self),
    {
        match self {
            AcceptedFormat::Jpeg => {
                String::from_str("<Default Extension=\"jpg\" ContentType=\"image/jpeg\" />")
            },
            AcceptedFormat::Png => {
                String::from_str("<Default Extension=\"png\" ContentType=\"image/png\" />")
            },
        }
    }

    /// The self-closing content-type declaration element, as a byte vector.
    pub fn content_type_decl_bytes(self) -> (r: Vec<u8>)
        ensures
            r@ == decl_bytes(self),
    {
        match self {
            AcceptedFormat::Jpeg => vstd::slice::slice_to_vec(
                ("<Default Extension=\"jpg\" ContentType=\"image/jpeg\" />").as_bytes(),
            ),
            AcceptedFormat::Png => vstd::slice::slice_to_vec(
                ("<Default Extension=\"png\" ContentType=\"image/png\" />").as_bytes(),
            ),
        }
    }
}

/// Whether the bytes begin with the PNG signature.
pub open spec fn is_png_bytes(d: Seq<u8>) -> bool {
    d.len() >= 8 && d[0] == 0x89u8 && d[1] == 0x50u8 && d[2] == 0x4eu8 && d[3] == 0x47u8
        && d[4] == 0x0du8 && d[5] == 0x0au8 && d[6] == 0x1au8 && d[7] == 0x0au8
}

/// Whether the bytes begin with the JPEG start-of-image marker.
pub open spec fn is_jpeg_bytes(d: Seq<u8>) -> bool {
    d.len() >= 3 && d[0] == 0xffu8 && d[1] == 0xd8u8 && d[2] == 0xffu8
}

/// Whether the bytes carry the given format's signature.
pub open spec fn is_format_bytes(d: Seq<u8>, f: AcceptedFormat) -> bool {
    match f {
        AcceptedFormat::Jpeg => is_jpeg_bytes(d),
        AcceptedFormat::Png => is_png_bytes(d),
    }
}

/// Checks the format's magic bytes, so that a media entry already in the
/// target format can be recognized without decoding it.
pub fn has_format(data: &Vec<u8>, f: AcceptedFormat) -> (b: bool)
    ensures
        b == is_format_bytes(data@, f),
{
    match f {
        AcceptedFormat::Jpeg => {
            data.len() >= 3 && data[0] == 0xffu8 && data[1] == 0xd8u8 && data[2] == 0xffu8
        },
        AcceptedFormat::Png => {
            data.len() >= 8 && data[0] == 0x89u8 && data[1] == 0x50u8 && data[2] == 0x4eu8
                && data[3] == 0x47u8 && data[4] == 0x0du8 && data[5] == 0x0au8
                && data[6] == 0x1au8 && data[7] == 0x0au8
        },
    }
}

/// The position of the last `.` in the final path component, scanning
/// backwards and stopping at the first `/`.
pub open spec fn dot_pos(name: Seq<u8>) -> Option<int>
    decreases name.len(),
{
    if name.len() == 0 {
        None
    } else if name.last() == 0x2fu8 {
        None
    } else if name.last() == 0x2eu8 {
        Some(name.len() - 1)
    } else {
        dot_pos(name.drop_last())
    }
}

/// The renamed media path: the extension of the last component is replaced by
/// `ext`; a component without an extension (none, or a leading dot only) has
/// `.ext` appended.
pub open spec fn new_name_spec(name: Seq<u8>, ext: Seq<u8>) -> Seq<u8> {
    match dot_pos(name) {
        Some(i) => {
            if i > 0 && name[i - 1] != 0x2fu8 {
                name.take(i + 1) + ext
            } else {
                name + seq![0x2eu8] + ext
            }
        },
        None => name + seq![0x2eu8] + ext,
    }
}

/// Derives the output path of a recoded media entry by swapping the file
/// extension for the target format's canonical one.
pub fn new_img_name(old_path: &Vec<u8>, format: AcceptedFormat) -> (r: Vec<u8>)
    ensures
        r@ == new_name_spec(old_path@, ext_bytes(format)),
{
    let n = old_path.len();
    let mut i: usize = n;
    proof {
        assert(old_path@.take(n as int) =~= old_path@);
    }
    while i > 0 && old_path[i - 1] != 0x2fu8 && old_path[i - 1] != 0x2eu8
        invariant
            i <= n,
            n == old_path@.len(),
            dot_pos(old_path@) == dot_pos(old_path@.take(i as int)),
        decreases i,
    {
        proof {
            assert(old_path@.take(i as int).drop_last() =~= old_path@.take(i as int - 1));
            assert(old_path@.take(i as int).last() == old_path@[i as int - 1]);
        }
        i = i - 1;
    }
    let found: Option<usize> = if i > 0 && old_path[i - 1] == 0x2eu8 {
        Some(i - 1)
    } else {
        None
    };
    proof {
        if i > 0 {
            assert(old_path@.take(i as int).last() == old_path@[i as int - 1]);
        }
    }
    let ext = format.extension_bytes();
    let mut out: Vec<u8> = Vec::new();
    match found {
        Some(j) if j > 0 && old_path[j - 1] != 0x2fu8 => {
            let mut k: usize = 0;
            while k < j + 1
                invariant
                    k <= j + 1,
                    j < n,
                    n == old_path@.len(),
                    out@ == old_path@.take(k as int),
                decreases j + 1 - k,
            {
                out.push(old_path[k]);
                k = k + 1;
            }
            let mut k: usize = 0;
            while k < ext.len()
                invariant
                    k <= ext.len(),
                    j < n,
                    n == old_path@.len(),
                    out@ == old_path@.take(j + 1) + ext@.take(k as int),
                decreases ext.len() - k,
            {
                out.push(ext[k]);
                k = k + 1;
            }
            proof {
                assert(ext@.take(ext@.len() as int) =~= ext@);
            }
        },
        _ => {
            let mut k: usize = 0;
            while k < n
                invariant
                    k <= n,
                    n == old_path@.len(),
                    out@ == old_path@.take(k as int),
                decreases n - k,
            {
                out.push(old_path[k]);
                k = k + 1;
            }
            out.push(0x2eu8);
            let mut k: usize = 0;
            while k < ext.len()
                invariant
                    k <= ext.len(),
                    n == old_path@.len(),
                    out@ == old_path@ + seq![0x2eu8] + ext@.take(k as int),
                decreases ext.len() - k,
            {
                out.push(ext[k]);
                k = k + 1;
            }
            proof {
                assert(old_path@.take(n as int) =~= old_path@);
                assert(ext@.take(ext@.len() as int) =~= ext@);
            }
        },
    }
    out
}

/// The bytes the external codec produces when re-encoding `data` into the
/// format with extension `ext` at the given quality. The result depends on
/// the arguments alone.
pub uninterp spec fn recode_of(data: Seq<u8>, ext: Seq<u8>, quality: u8) -> Seq<u8>;

/// Whether the external codec can re-encode `data` into the format with
/// extension `ext` at the given quality: the bytes decode as a recognized
/// raster image and the target encoder accepts it. The result depends on
/// the arguments alone.
pub uninterp spec fn recode_ok(data: Seq<u8>, ext: Seq<u8>, quality: u8) -> bool;

/// Re-encodes one image into the target format.
///
/// Relies on the image crate: `io::Reader::with_guessed_format` and `decode`
/// detect the source format from the bytes alone and decode them, and
/// `DynamicImage::write_to` emits the chosen output format, whose encoders
/// always begin the output with that format's mandatory signature (the JPEG
/// start-of-image marker, the PNG signature). Whether the call succeeds, and
/// what it produces, depend on the input bytes, format, and quality alone,
/// so success is the named predicate exactly, and a failure is surfaced
/// as-is to the caller.
#[verifier::external_body]
pub fn convert_image(data: &Vec<u8>, format: AcceptedFormat, quality: u8) -> (r: Result<
    Vec<u8>,
    Error,
>)
    requires
        quality <= 100,
    ensures
        r matches Ok(v) ==> recode_ok(data@, ext_bytes(format), quality) && v@ == recode_of(
            data@,
            ext_bytes(format),
            quality,
        ) && is_format_bytes(v@, format),
        r matches Err(e) ==> !recode_ok(data@, ext_bytes(format), quality) && e
            == Error::ImageCodec,
{
    let fmt = match format {
        AcceptedFormat::Jpeg => image::ImageOutputFormat::Jpeg(quality),
        AcceptedFormat::Png => image::ImageOutputFormat::Png,
    };
    let reader = image::io::Reader::new(std::io::Cursor::new(data.as_slice()));
    let guessed = reader.with_guessed_format().map_err(|_| Error::ImageCodec)?;
    let img = guessed.decode().map_err(|_| Error::ImageCodec)?;
    let mut buf = std::io::Cursor::new(Vec::new());
    img.write_to(&mut buf, fmt).map_err(|_| Error::ImageCodec)?;
    Ok(buf.into_inner())
}

/// Parses a format token: the case-sensitive short extension strings name
/// the recognized output formats.
pub fn parse_format(s: &str) -> (r: Option<AcceptedFormat>)
    ensures
        r == (if s.spec_bytes() == "jpg".spec_bytes() {
            Some(AcceptedFormat::Jpeg)
        } else if s.spec_bytes() == "png".spec_bytes() {
            Some(AcceptedFormat::Png)
        } else {
            None::<AcceptedFormat>
        }),
{
    if crate::xml::bytes_eq(s.as_bytes(), ("jpg").as_bytes()) {
        Some(AcceptedFormat::Jpeg)
    } else if crate::xml::bytes_eq(s.as_bytes(), ("png").as_bytes()) {
        Some(AcceptedFormat::Png)
    } else {
        None
    }
}

/// The characters the base64 encoder produces for `data`. The result depends
/// on the bytes alone.
pub uninterp spec fn base64_of(data: Seq<u8>) -> Seq<char>;

/// Encodes bytes with the standard base64 alphabet.
///
/// Relies on base64's `Engine::encode` with the padded standard engine: the
/// output is a function of the input bytes alone, four characters for every
/// three input bytes, rounded up by padding.
#[verifier::external_body]
fn base64_encode(data: &Vec<u8>) -> (r: String)
    ensures
        r@ == base64_of(data@),
        r@.len() == 4 * ((data@.len() + 2) / 3),
{
    base64::Engine::encode(&base64::engine::general_purpose::STANDARD, data.as_slice())
}

/// The image transfer object handed to external callers: a data URI with a
/// MIME prefix and base64 payload, the byte length, and the format name.
pub struct Image {
    pub base64: String,
    pub size: usize,
    pub format: String,
}

impl Image {
    /// Builds the transfer object for raw image bytes in the given format.
    pub fn with_format(data: &Vec<u8>, format: AcceptedFormat) -> (r: Image)
        ensures
            r.size == data@.len(),
            r.format@ == format_name_chars(format),
            r.base64@ == "data:"@ + content_type_chars(format) + ","@ + base64_of(data@),
    {
        let encoded = base64_encode(data);
        let mut uri = String::from_str("data:");
        uri.append(format.content_type());
        uri.append(",");
        uri.append(encoded.as_str());
        Image { base64: uri, size: data.len(), format: String::from_str(format.format_name()) }
    }
}

} // verus!
