use vstd::prelude::*;

verus! {

/// The kinds of file the carver knows how to recognise.
#[derive(Debug, Clone, Copy, PartialEq, Eq, Hash, Structural)]
pub enum FileKind {
    Jpeg,
    Png,
    Pdf,
    Zip,
}

/// Human-readable name of each kind.
pub open spec fn kind_name(kind: FileKind) -> Seq<char> {
    match kind {
        FileKind::Jpeg => "JPEG"@,
        FileKind::Png => "PNG"@,
        FileKind::Pdf => "PDF"@,
        FileKind::Zip => "ZIP"@,
    }
}

/// Conventional file extension of each kind (without the dot).
pub open spec fn kind_extension(kind: FileKind) -> Seq<char> {
    match kind {
        FileKind::Jpeg => "jpg"@,
        FileKind::Png => "png"@,
        FileKind::Pdf => "pdf"@,
        FileKind::Zip => "zip"@,
    }
}

/// The extension in capitals, as listings show it.
pub open spec fn kind_extension_upper(kind: FileKind) -> Seq<char> {
    match kind {
        FileKind::Jpeg => "JPG"@,
        FileKind::Png => "PNG"@,
        FileKind::Pdf => "PDF"@,
        FileKind::Zip => "ZIP"@,
    }
}

impl FileKind {
    /// The extension in capitals (`"JPG"` for JPEG).
    pub fn extension_upper(self) -> (res: &'static str)
        ensures
            res@ == kind_extension_upper(self),
    {
        match self {
            FileKind::Jpeg => "JPG",
            FileKind::Png => "PNG",
            FileKind::Pdf => "PDF",
            FileKind::Zip => "ZIP",
        }
    }

    pub fn name(self) -> (res: &'static str)
        ensures
            res@ == kind_name(self),
    {
        match self {
            FileKind::Jpeg => "JPEG",
            FileKind::Png => "PNG",
            FileKind::Pdf => "PDF",
            FileKind::Zip => "ZIP",
        }
    }

    pub fn extension(self) -> (res: &'static str)
        ensures
            res@ == kind_extension(self),
    {
        match self {
            FileKind::Jpeg => "jpg",
            FileKind::Png => "png",
            FileKind::Pdf => "pdf",
            FileKind::Zip => "zip",
        }
    }
}

impl FileKind {
    /// The display text of the kind: its name.
    pub fn to_string(self) -> (res: String)
        ensures
            res@ == kind_name(self),
    {
        String::from_str(self.name())
    }
}

/// A file signature: the byte pattern that opens a file of `kind` and the
/// byte pattern that closes it.
pub struct Signature {
    pub kind: FileKind,
    pub header_pattern: Vec<u8>,
    pub footer_pattern: Vec<u8>,
}

/// The abstract value of a signature: its kind and its two patterns.
pub struct SignatureModel {
    pub kind: FileKind,
    pub header: Seq<u8>,
    pub footer: Seq<u8>,
}

impl View for Signature {
    type V = SignatureModel;

    open spec fn view(&self) -> SignatureModel {
        SignatureModel { kind: self.kind, header: self.header_pattern@, footer: self.footer_pattern@ }
    }
}

pub open spec fn jpeg_model() -> SignatureModel {
    SignatureModel { kind: FileKind::Jpeg, header: seq![0xFFu8, 0xD8, 0xFF], footer: seq![0xFFu8, 0xD9] }
}

pub open spec fn png_model() -> SignatureModel {
    SignatureModel {
        kind: FileKind::Png,
        header: seq![0x89u8, 0x50, 0x4E, 0x47, 0x0D, 0x0A, 0x1A, 0x0A],
        footer: seq![0x49u8, 0x45, 0x4E, 0x44, 0xAE, 0x42, 0x60, 0x82],
    }
}

pub open spec fn pdf_model() -> SignatureModel {
    SignatureModel {
        kind: FileKind::Pdf,
        header: seq![0x25u8, 0x50, 0x44, 0x46],
        footer: seq![0x25u8, 0x25, 0x45, 0x4F, 0x46],
    }
}

pub open spec fn zip_model() -> SignatureModel {
    SignatureModel { kind: FileKind::Zip, header: seq![0x50u8, 0x4B, 0x03, 0x04], footer: seq![0x50u8, 0x4B, 0x05, 0x06] }
}

/// Every signature the carver ships with, in the order they are tried.
pub open spec fn supported_models() -> Seq<SignatureModel> {
    seq![jpeg_model(), png_model(), pdf_model(), zip_model()]
}

impl Signature {
    /// A field-by-field copy of this signature.
    pub fn duplicate(&self) -> (res: Signature)
        ensures
            res@ == self@,
    {
        Signature {
            kind: self.kind,
            header_pattern: self.header_pattern.clone(),
            footer_pattern: self.footer_pattern.clone(),
        }
    }
}

/// JPEG: starts with the SOI marker `FF D8 FF`, ends with the EOI marker `FF D9`.
pub fn jpeg_signature() -> (res: Signature)
    ensures
        res@ == jpeg_model(),
{
    let res = Signature {
        kind: FileKind::Jpeg,
        header_pattern: vec![0xFFu8, 0xD8, 0xFF],
        footer_pattern: vec![0xFFu8, 0xD9],
    };
    assert(res@.header =~= jpeg_model().header);
    assert(res@.footer =~= jpeg_model().footer);
    res
}

/// PNG: starts with the eight-byte PNG magic, ends with the `IEND` chunk and its CRC.
pub fn png_signature() -> (res: Signature)
    ensures
        res@ == png_model(),
{
    let res = Signature {
        kind: FileKind::Png,
        header_pattern: vec![0x89u8, 0x50, 0x4E, 0x47, 0x0D, 0x0A, 0x1A, 0x0A],
        footer_pattern: vec![0x49u8, 0x45, 0x4E, 0x44, 0xAE, 0x42, 0x60, 0x82],
    };
    assert(res@.header =~= png_model().header);
    assert(res@.footer =~= png_model().footer);
    res
}

/// PDF: starts with `%PDF`, ends with `%%EOF`.
pub fn pdf_signature() -> (res: Signature)
    ensures
        res@ == pdf_model(),
{
    let res = Signature {
        kind: FileKind::Pdf,
        header_pattern: vec![0x25u8, 0x50, 0x44, 0x46],
        footer_pattern: vec![0x25u8, 0x25, 0x45, 0x4F, 0x46],
    };
    assert(res@.header =~= pdf_model().header);
    assert(res@.footer =~= pdf_model().footer);
    res
}

/// ZIP: starts with a local file header `PK 03 04`, ends with the
/// end-of-central-directory record `PK 05 06`.
pub fn zip_signature() -> (res: Signature)
    ensures
        res@ == zip_model(),
{
    let res = Signature {
        kind: FileKind::Zip,
        header_pattern: vec![0x50u8, 0x4B, 0x03, 0x04],
        footer_pattern: vec![0x50u8, 0x4B, 0x05, 0x06],
    };
    assert(res@.header =~= zip_model().header);
    assert(res@.footer =~= zip_model().footer);
    res
}

/// All supported signatures, in the order JPEG, PNG, PDF, ZIP.
pub fn supported_signatures() -> (res: Vec<Signature>)
    ensures
        res@.len() == supported_models().len(),
        forall|i: int| 0 <= i < res@.len() ==> #[trigger] res@[i]@ == supported_models()[i],
{
    let mut res: Vec<Signature> = Vec::new();
    res.push(jpeg_signature());
    res.push(png_signature());
    res.push(pdf_signature());
    res.push(zip_signature());
    res
}

} // verus!
