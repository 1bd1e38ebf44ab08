//! Images and the sizes they declare.

use vstd::prelude::*;
use crate::text::{decimal, push_decimal, push_text, spelled};
use crate::types::{first_failure, outcome, over_limit, Error, Limits, MAX_PDF_INTEGER};
use crate::writer::ObjectId;

verus! {

/// The narrow image formats that are emitted.
///
/// JPEG bytes are passed through unchanged; callers must supply a valid JPEG
/// with the declared dimensions and color space. Raw bytes are checked against
/// their exact expected length before any image output is written.
#[derive(Clone, Copy, Debug, PartialEq, Eq, Structural)]
pub enum ImageEncoding {
    Gray8,
    Rgb8,
    JpegGray8,
    JpegRgb8,
}

/// One image XObject placed on a page.
#[derive(Clone, Copy, Debug, PartialEq, Eq, Structural)]
pub struct ImageSpec {
    pub pixel_width: u32,
    pub pixel_height: u32,
    pub encoding: ImageEncoding,
}

/// A 1 bit-per-component image whose rows the caller streams in order.
///
/// Each supplied row has `row_stride` bytes and is packed most significant
/// bit first. Only its first `ceil(pixel_width / 8)` bytes enter the PDF;
/// the remaining bytes are source row padding and are dropped, so a DIB
/// 32-bit-aligned row can be passed unchanged. Unused low bits of the last
/// kept byte are PDF row padding, which readers ignore. The first supplied
/// row is the top of the image. A set bit is black and a clear bit is white.
#[derive(Clone, Copy, Debug, PartialEq, Eq, Structural)]
pub struct BilevelImageSpec {
    pub pixel_width: u32,
    pub pixel_height: u32,
    pub row_stride: usize,
}

/// A completely written image XObject that can be placed on a page. It is
/// valid only in the document that wrote it.
#[derive(Clone, Copy, Debug, PartialEq, Eq, Structural)]
pub struct ImageObject {
    pub object: ObjectId,
}

/// Why an image cannot have these dimensions.
pub open spec fn dimension_failure(width: u32, height: u32) -> Option<Error> {
    if width == 0 || height == 0 {
        Some(Error::InvalidInput { reason: "image width and height must be nonzero" })
    } else {
        first_failure(
            over_limit("PDF image width", MAX_PDF_INTEGER, width as int),
            over_limit("PDF image height", MAX_PDF_INTEGER, height as int),
        )
    }
}

/// Check the dimensions of an image.
pub fn check_image_dimensions(width: u32, height: u32) -> (checked: Result<(), Error>)
    ensures
        checked == outcome(dimension_failure(width, height)),
{
    if width == 0 || height == 0 {
        return Err(Error::InvalidInput { reason: "image width and height must be nonzero" });
    }
    crate::types::check_limit("PDF image width", MAX_PDF_INTEGER, width as u64)?;
    crate::types::check_limit("PDF image height", MAX_PDF_INTEGER, height as u64)
}

impl ImageEncoding {
    /// The bytes of one raw pixel.
    pub open spec fn channels(self) -> int {
        match self {
            ImageEncoding::Gray8 | ImageEncoding::JpegGray8 => 1,
            ImageEncoding::Rgb8 | ImageEncoding::JpegRgb8 => 3,
        }
    }

    /// Whether the bytes are pixels.
    pub open spec fn is_raw(self) -> bool {
        self is Gray8 || self is Rgb8
    }
}

impl ImageSpec {
    /// The bytes that a raw image of these dimensions has.
    pub open spec fn raw_bytes(self) -> int {
        self.pixel_width * self.pixel_height * self.encoding.channels()
    }

    /// Why an image cannot have this many bytes.
    pub open spec fn failure(self, length: u64) -> Option<Error> {
        first_failure(
            dimension_failure(self.pixel_width, self.pixel_height),
            if self.encoding.is_raw() {
                if self.raw_bytes() > u64::MAX {
                    Some(Error::InvalidInput { reason: "raw image byte count overflows" })
                } else if length != self.raw_bytes() {
                    Some(
                        Error::InvalidInput {
                            reason: "raw image byte count does not match dimensions",
                        },
                    )
                } else {
                    None
                }
            } else if length == 0 {
                Some(Error::InvalidInput { reason: "JPEG image stream must not be empty" })
            } else {
                None
            },
        )
    }

    /// Check that an image has the bytes that its dimensions ask for.
    pub fn validate(self, length: u64) -> (checked: Result<(), Error>)
        ensures
            checked == outcome(self.failure(length)),
    {
        check_image_dimensions(self.pixel_width, self.pixel_height)?;
        let channels: u64 = match self.encoding {
            ImageEncoding::Gray8 => 1,
            ImageEncoding::JpegGray8 => 1,
            ImageEncoding::Rgb8 => 3,
            ImageEncoding::JpegRgb8 => 3,
        };
        let raw: bool = match self.encoding {
            ImageEncoding::Gray8 => true,
            ImageEncoding::Rgb8 => true,
            _ => false,
        };
        if raw {
            assert(self.pixel_width * self.pixel_height <= 0xFFFF_FFFF * 0xFFFF_FFFF)
                by (nonlinear_arith)
                requires
                    self.pixel_width <= 0xFFFF_FFFF,
                    self.pixel_height <= 0xFFFF_FFFF,
            ;
            let pixels: u64 = self.pixel_width as u64 * self.pixel_height as u64;
            let expected: u64 = match pixels.checked_mul(channels) {
                Some(expected) => expected,
                None => {
                    return Err(Error::InvalidInput { reason: "raw image byte count overflows" });
                },
            };
            if length != expected {
                return Err(
                    Error::InvalidInput { reason: "raw image byte count does not match dimensions" },
                );
            }
        } else if length == 0 {
            return Err(Error::InvalidInput { reason: "JPEG image stream must not be empty" });
        }
        Ok(())
    }

    /// The entries of the image's stream dictionary.
    pub open spec fn dictionary_text(self) -> Seq<u8> {
        spelled("/Type /XObject\n/Subtype /Image\n/Width ") + decimal(self.pixel_width as nat)
            + spelled("\n/Height ") + decimal(self.pixel_height as nat) + spelled(
            "\n/ColorSpace /",
        ) + (if self.encoding.channels() == 1 {
            spelled("DeviceGray")
        } else {
            spelled("DeviceRGB")
        }) + spelled("\n/BitsPerComponent 8\n") + (if self.encoding.is_raw() {
            Seq::empty()
        } else {
            spelled("/Filter /DCTDecode\n")
        })
    }

    /// The entries of the image's stream dictionary.
    pub fn dictionary(self) -> (dictionary: Vec<u8>)
        ensures
            dictionary@ == self.dictionary_text(),
    {
        let mut text: Vec<u8> = Vec::new();
        push_text(&mut text, "/Type /XObject\n/Subtype /Image\n/Width ");
        push_decimal(&mut text, self.pixel_width as u64);
        push_text(&mut text, "\n/Height ");
        push_decimal(&mut text, self.pixel_height as u64);
        push_text(&mut text, "\n/ColorSpace /");
        match self.encoding {
            ImageEncoding::Gray8 => push_text(&mut text, "DeviceGray"),
            ImageEncoding::JpegGray8 => push_text(&mut text, "DeviceGray"),
            ImageEncoding::Rgb8 => push_text(&mut text, "DeviceRGB"),
            ImageEncoding::JpegRgb8 => push_text(&mut text, "DeviceRGB"),
        }
        push_text(&mut text, "\n/BitsPerComponent 8\n");
        match self.encoding {
            ImageEncoding::JpegGray8 => push_text(&mut text, "/Filter /DCTDecode\n"),
            ImageEncoding::JpegRgb8 => push_text(&mut text, "/Filter /DCTDecode\n"),
            _ => {},
        }
        assert(text@ =~= self.dictionary_text());
        text
    }
}

/// The bytes that a packed row of pixels takes.
pub open spec fn packed_bytes(width: u32) -> int {
    (width + 7) / 8
}

impl BilevelImageSpec {
    /// Why an image cannot have these sizes.
    pub open spec fn failure(self) -> Option<Error> {
        let visible = packed_bytes(self.pixel_width);
        first_failure(
            dimension_failure(self.pixel_width, self.pixel_height),
            if self.row_stride < visible {
                Some(
                    Error::InvalidInput {
                        reason: "bilevel row stride is shorter than the packed row",
                    },
                )
            } else if visible * self.pixel_height > MAX_PDF_INTEGER {
                over_limit(
                    "PDF image stream bytes",
                    MAX_PDF_INTEGER,
                    visible * self.pixel_height,
                )
            } else if self.row_stride * self.pixel_height > u64::MAX {
                Some(Error::InvalidInput { reason: "bilevel input byte count overflows" })
            } else {
                None
            },
        )
    }

    /// The kept bytes per row and the total input bytes, after checking every
    /// PDF size.
    pub fn validate(self) -> (checked: Result<(usize, u64), Error>)
        ensures
            match self.failure() {
                Some(failure) => checked == Err::<(usize, u64), Error>(failure),
                None => {
                    &&& checked is Ok
                    &&& checked->Ok_0.0 == packed_bytes(self.pixel_width)
                    &&& checked->Ok_0.1 == self.row_stride * self.pixel_height
                    &&& 0 < checked->Ok_0.0 <= self.row_stride
                },
            },
    {
        check_image_dimensions(self.pixel_width, self.pixel_height)?;
        let visible: u64 = (self.pixel_width as u64 + 7) / 8;
        if (self.row_stride as u64) < visible {
            return Err(
                Error::InvalidInput { reason: "bilevel row stride is shorter than the packed row" },
            );
        }
        assert(visible * self.pixel_height <= 0x2000_0000 * 0xFFFF_FFFF) by (nonlinear_arith)
            requires
                visible <= 0x2000_0000,
                self.pixel_height <= 0xFFFF_FFFF,
        ;
        let stream: u64 = visible * self.pixel_height as u64;
        if stream > MAX_PDF_INTEGER {
            return Err(
                Error::LimitExceeded {
                    resource: "PDF image stream bytes",
                    limit: MAX_PDF_INTEGER,
                    attempted: stream,
                },
            );
        }
        let input: u64 = match (self.row_stride as u64).checked_mul(self.pixel_height as u64) {
            Some(input) => input,
            None => {
                return Err(Error::InvalidInput { reason: "bilevel input byte count overflows" });
            },
        };
        Ok((visible as usize, input))
    }

    /// The entries of the image's stream dictionary.
    pub open spec fn dictionary_text(self) -> Seq<u8> {
        spelled("/Type /XObject\n/Subtype /Image\n/Width ") + decimal(self.pixel_width as nat)
            + spelled("\n/Height ") + decimal(self.pixel_height as nat) + spelled(
            "\n/ColorSpace /DeviceGray\n/BitsPerComponent 1\n/Decode [1 0]\n",
        )
    }

    /// The entries of the image's stream dictionary.
    pub fn dictionary(self) -> (dictionary: Vec<u8>)
        ensures
            dictionary@ == self.dictionary_text(),
    {
        let mut text: Vec<u8> = Vec::new();
        push_text(&mut text, "/Type /XObject\n/Subtype /Image\n/Width ");
        push_decimal(&mut text, self.pixel_width as u64);
        push_text(&mut text, "\n/Height ");
        push_decimal(&mut text, self.pixel_height as u64);
        push_text(&mut text, "\n/ColorSpace /DeviceGray\n/BitsPerComponent 1\n/Decode [1 0]\n");
        assert(text@ =~= self.dictionary_text());
        text
    }
}

/// Why an image payload range is refused.
pub open spec fn range_failure(
    limits: Limits,
    input_bytes_read: u64,
    source_size: u64,
    offset: u64,
    length: u64,
) -> Option<Error> {
    first_failure(
        over_limit("input bytes", limits.max_input_bytes, source_size as int),
        first_failure(
            over_limit("PDF image stream bytes", MAX_PDF_INTEGER, length as int),
            if offset > source_size {
                Some(Error::InvalidInput { reason: "image range starts beyond source size" })
            } else if length > source_size - offset {
                Some(
                    Error::TruncatedInput {
                        offset,
                        expected: length,
                        available: (source_size - offset) as u64,
                    },
                )
            } else if input_bytes_read + length > u64::MAX {
                Some(Error::InvalidInput { reason: "image input byte count overflows" })
            } else {
                None
            },
        ),
    )
}

/// Check one image payload range.
pub fn validate_image_range(
    limits: &Limits,
    input_bytes_read: u64,
    source_size: u64,
    offset: u64,
    length: u64,
) -> (checked: Result<(), Error>)
    ensures
        checked == outcome(range_failure(*limits, input_bytes_read, source_size, offset, length)),
{
    limits.check_input_size(source_size)?;
    crate::types::check_limit("PDF image stream bytes", MAX_PDF_INTEGER, length)?;
    if offset > source_size {
        return Err(Error::InvalidInput { reason: "image range starts beyond source size" });
    }
    if length > source_size - offset {
        return Err(
            Error::TruncatedInput { offset, expected: length, available: source_size - offset },
        );
    }
    if input_bytes_read.checked_add(length).is_none() {
        return Err(Error::InvalidInput { reason: "image input byte count overflows" });
    }
    Ok(())
}

} // verus!
