//! What the dictionaries of images say.

use vstd::prelude::*;
use crate::document::image::{BilevelImageSpec, ImageEncoding, ImageSpec};
use crate::reading::{
    holds, lacks, lemma_ascii, lemma_both_lack, lemma_holds, lemma_marked, lemma_no_number,
    lemma_nothing_lacks, lemma_number_lacks, lemma_one_number, only_at,
};
use crate::text::{decimal, spelled};
use crate::types::MAX_PDF_INTEGER;

verus! {

/// The words of an image dictionary.
proof fn lemma_image_words()
    ensures
        spelled("/Type /XObject\n/Subtype /Image\n").len() == 31,
        spelled("/Type /XObject\n/Subtype /Image\n")[0] == 47,
        lacks(spelled("/Type /XObject\n/Subtype /Image\n"), 87),
        lacks(spelled("/Type /XObject\n/Subtype /Image\n"), 72),
        lacks(spelled("/Type /XObject\n/Subtype /Image\n"), 118),
        lacks(spelled("/Type /XObject\n/Subtype /Image\n"), 70),
        spelled("/Width ").len() == 7,
        spelled("/Width ")[0] == 47,
        lacks(spelled("/Width "), 72),
        lacks(spelled("/Width "), 118),
        lacks(spelled("/Width "), 70),
        only_at(spelled("/Width "), 1, 87),
        spelled("\n/Height ").len() == 9,
        spelled("\n/Height ")[0] == 10,
        lacks(spelled("\n/Height "), 87),
        lacks(spelled("\n/Height "), 118),
        lacks(spelled("\n/Height "), 70),
        only_at(spelled("\n/Height "), 2, 72),
        spelled("\n/ColorSpace /").len() == 14,
        spelled("\n/ColorSpace /")[0] == 10,
        lacks(spelled("\n/ColorSpace /"), 87),
        lacks(spelled("\n/ColorSpace /"), 72),
        lacks(spelled("\n/ColorSpace /"), 118),
        lacks(spelled("\n/ColorSpace /"), 70),
        spelled("DeviceGray").len() == 10,
        spelled("DeviceGray")[0] == 68,
        lacks(spelled("DeviceGray"), 87),
        lacks(spelled("DeviceGray"), 72),
        lacks(spelled("DeviceGray"), 70),
        only_at(spelled("DeviceGray"), 2, 118),
        spelled("DeviceRGB").len() == 9,
        spelled("DeviceRGB")[0] == 68,
        lacks(spelled("DeviceRGB"), 87),
        lacks(spelled("DeviceRGB"), 72),
        lacks(spelled("DeviceRGB"), 70),
        only_at(spelled("DeviceRGB"), 2, 118),
        spelled("\n/ColorSpace /DeviceGray").len() == 24,
        spelled("\n/ColorSpace /DeviceGray")[0] == 10,
        lacks(spelled("\n/ColorSpace /DeviceGray"), 87),
        lacks(spelled("\n/ColorSpace /DeviceGray"), 72),
        lacks(spelled("\n/ColorSpace /DeviceGray"), 70),
        only_at(spelled("\n/ColorSpace /DeviceGray"), 16, 118),
        spelled("\n/ColorSpace /DeviceRGB").len() == 23,
        spelled("\n/ColorSpace /DeviceRGB")[0] == 10,
        lacks(spelled("\n/ColorSpace /DeviceRGB"), 87),
        lacks(spelled("\n/ColorSpace /DeviceRGB"), 72),
        lacks(spelled("\n/ColorSpace /DeviceRGB"), 70),
        only_at(spelled("\n/ColorSpace /DeviceRGB"), 16, 118),
        spelled("\n/BitsPerComponent 8\n").len() == 21,
        spelled("\n/BitsPerComponent 8\n")[0] == 10,
        lacks(spelled("\n/BitsPerComponent 8\n"), 87),
        lacks(spelled("\n/BitsPerComponent 8\n"), 72),
        lacks(spelled("\n/BitsPerComponent 8\n"), 118),
        lacks(spelled("\n/BitsPerComponent 8\n"), 70),
        spelled("/Filter /DCTDecode\n").len() == 19,
        spelled("/Filter /DCTDecode\n")[0] == 47,
        lacks(spelled("/Filter /DCTDecode\n"), 87),
        lacks(spelled("/Filter /DCTDecode\n"), 72),
        lacks(spelled("/Filter /DCTDecode\n"), 118),
        only_at(spelled("/Filter /DCTDecode\n"), 1, 70),
        spelled("\n").len() == 1,
        spelled("\n")[0] == 10,
        lacks(spelled("\n"), 87),
        lacks(spelled("\n"), 72),
        lacks(spelled("\n"), 118),
        lacks(spelled("\n"), 70),
        spelled("\n/ColorSpace /DeviceGray\n/BitsPerComponent 1\n/Decode [1 0]\n").len() == 59,
        spelled("\n/ColorSpace /DeviceGray\n/BitsPerComponent 1\n/Decode [1 0]\n")[0] == 10,
        lacks(spelled("\n/ColorSpace /DeviceGray\n/BitsPerComponent 1\n/Decode [1 0]\n"), 87),
        lacks(spelled("\n/ColorSpace /DeviceGray\n/BitsPerComponent 1\n/Decode [1 0]\n"), 72),
        lacks(spelled("\n/ColorSpace /DeviceGray\n/BitsPerComponent 1\n/Decode [1 0]\n"), 70),
        only_at(spelled("\n/ColorSpace /DeviceGray\n/BitsPerComponent 1\n/Decode [1 0]\n"), 16, 118),
        spelled("/BitsPerComponent 1\n/Decode [1 0]\n").len() == 34,
        spelled("/BitsPerComponent 1\n/Decode [1 0]\n")[0] == 47,
        lacks(spelled("/BitsPerComponent 1\n/Decode [1 0]\n"), 87),
        lacks(spelled("/BitsPerComponent 1\n/Decode [1 0]\n"), 72),
        lacks(spelled("/BitsPerComponent 1\n/Decode [1 0]\n"), 118),
        lacks(spelled("/BitsPerComponent 1\n/Decode [1 0]\n"), 70),
{
    reveal(lacks);
    reveal(only_at);
    reveal_strlit("/Type /XObject\n/Subtype /Image\n");
    assert(vstd::string::is_ascii("/Type /XObject\n/Subtype /Image\n"));
    lemma_ascii("/Type /XObject\n/Subtype /Image\n");
    reveal_strlit("/Width ");
    assert(vstd::string::is_ascii("/Width "));
    lemma_ascii("/Width ");
    reveal_strlit("\n/Height ");
    assert(vstd::string::is_ascii("\n/Height "));
    lemma_ascii("\n/Height ");
    reveal_strlit("\n/ColorSpace /");
    assert(vstd::string::is_ascii("\n/ColorSpace /"));
    lemma_ascii("\n/ColorSpace /");
    reveal_strlit("DeviceGray");
    assert(vstd::string::is_ascii("DeviceGray"));
    lemma_ascii("DeviceGray");
    reveal_strlit("DeviceRGB");
    assert(vstd::string::is_ascii("DeviceRGB"));
    lemma_ascii("DeviceRGB");
    reveal_strlit("\n/ColorSpace /DeviceGray");
    assert(vstd::string::is_ascii("\n/ColorSpace /DeviceGray"));
    lemma_ascii("\n/ColorSpace /DeviceGray");
    reveal_strlit("\n/ColorSpace /DeviceRGB");
    assert(vstd::string::is_ascii("\n/ColorSpace /DeviceRGB"));
    lemma_ascii("\n/ColorSpace /DeviceRGB");
    reveal_strlit("\n/BitsPerComponent 8\n");
    assert(vstd::string::is_ascii("\n/BitsPerComponent 8\n"));
    lemma_ascii("\n/BitsPerComponent 8\n");
    reveal_strlit("/Filter /DCTDecode\n");
    assert(vstd::string::is_ascii("/Filter /DCTDecode\n"));
    lemma_ascii("/Filter /DCTDecode\n");
    reveal_strlit("\n");
    assert(vstd::string::is_ascii("\n"));
    lemma_ascii("\n");
    reveal_strlit("\n/ColorSpace /DeviceGray\n/BitsPerComponent 1\n/Decode [1 0]\n");
    assert(vstd::string::is_ascii("\n/ColorSpace /DeviceGray\n/BitsPerComponent 1\n/Decode [1 0]\n"));
    lemma_ascii("\n/ColorSpace /DeviceGray\n/BitsPerComponent 1\n/Decode [1 0]\n");
    reveal_strlit("/BitsPerComponent 1\n/Decode [1 0]\n");
    assert(vstd::string::is_ascii("/BitsPerComponent 1\n/Decode [1 0]\n"));
    lemma_ascii("/BitsPerComponent 1\n/Decode [1 0]\n");
}

/// Longer words are made of shorter ones.
proof fn lemma_words_joined()
    ensures
        spelled("/Type /XObject\n/Subtype /Image\n/Width ") == spelled("/Type /XObject\n/Subtype /Image\n") + spelled("/Width "),
        spelled("\n/ColorSpace /") + spelled("DeviceGray") == spelled("\n/ColorSpace /DeviceGray"),
        spelled("\n/ColorSpace /") + spelled("DeviceRGB") == spelled("\n/ColorSpace /DeviceRGB"),
        spelled("\n/ColorSpace /DeviceGray\n/BitsPerComponent 1\n/Decode [1 0]\n") == spelled(
            "\n/ColorSpace /DeviceGray",
        ) + spelled("\n") + spelled("/BitsPerComponent 1\n/Decode [1 0]\n"),
{
    reveal_strlit("/Type /XObject\n/Subtype /Image\n/Width ");
    assert(vstd::string::is_ascii("/Type /XObject\n/Subtype /Image\n/Width "));
    lemma_ascii("/Type /XObject\n/Subtype /Image\n/Width ");
    reveal_strlit("/Type /XObject\n/Subtype /Image\n");
    assert(vstd::string::is_ascii("/Type /XObject\n/Subtype /Image\n"));
    lemma_ascii("/Type /XObject\n/Subtype /Image\n");
    reveal_strlit("/Width ");
    assert(vstd::string::is_ascii("/Width "));
    lemma_ascii("/Width ");
    reveal_strlit("\n/Height ");
    assert(vstd::string::is_ascii("\n/Height "));
    lemma_ascii("\n/Height ");
    reveal_strlit("\n/ColorSpace /");
    assert(vstd::string::is_ascii("\n/ColorSpace /"));
    lemma_ascii("\n/ColorSpace /");
    reveal_strlit("DeviceGray");
    assert(vstd::string::is_ascii("DeviceGray"));
    lemma_ascii("DeviceGray");
    reveal_strlit("DeviceRGB");
    assert(vstd::string::is_ascii("DeviceRGB"));
    lemma_ascii("DeviceRGB");
    reveal_strlit("\n/ColorSpace /DeviceGray");
    assert(vstd::string::is_ascii("\n/ColorSpace /DeviceGray"));
    lemma_ascii("\n/ColorSpace /DeviceGray");
    reveal_strlit("\n/ColorSpace /DeviceRGB");
    assert(vstd::string::is_ascii("\n/ColorSpace /DeviceRGB"));
    lemma_ascii("\n/ColorSpace /DeviceRGB");
    reveal_strlit("\n/BitsPerComponent 8\n");
    assert(vstd::string::is_ascii("\n/BitsPerComponent 8\n"));
    lemma_ascii("\n/BitsPerComponent 8\n");
    reveal_strlit("/Filter /DCTDecode\n");
    assert(vstd::string::is_ascii("/Filter /DCTDecode\n"));
    lemma_ascii("/Filter /DCTDecode\n");
    reveal_strlit("\n");
    assert(vstd::string::is_ascii("\n"));
    lemma_ascii("\n");
    reveal_strlit("\n/ColorSpace /DeviceGray\n/BitsPerComponent 1\n/Decode [1 0]\n");
    assert(vstd::string::is_ascii("\n/ColorSpace /DeviceGray\n/BitsPerComponent 1\n/Decode [1 0]\n"));
    lemma_ascii("\n/ColorSpace /DeviceGray\n/BitsPerComponent 1\n/Decode [1 0]\n");
    reveal_strlit("/BitsPerComponent 1\n/Decode [1 0]\n");
    assert(vstd::string::is_ascii("/BitsPerComponent 1\n/Decode [1 0]\n"));
    lemma_ascii("/BitsPerComponent 1\n/Decode [1 0]\n");
    assert(spelled("/Type /XObject\n/Subtype /Image\n/Width ") =~= spelled("/Type /XObject\n/Subtype /Image\n") + spelled("/Width "));
    assert(spelled("\n/ColorSpace /") + spelled("DeviceGray") =~= spelled(
        "\n/ColorSpace /DeviceGray",
    ));
    assert(spelled("\n/ColorSpace /") + spelled("DeviceRGB") =~= spelled(
        "\n/ColorSpace /DeviceRGB",
    ));
    assert(spelled("\n/ColorSpace /DeviceGray\n/BitsPerComponent 1\n/Decode [1 0]\n") =~= spelled(
        "\n/ColorSpace /DeviceGray",
    ) + spelled("\n") + spelled("/BitsPerComponent 1\n/Decode [1 0]\n"));
}

/// The two colour spaces are told apart where they stand.
proof fn lemma_spaces_differ(right: Seq<u8>)
    ensures
        !spelled("\n/ColorSpace /DeviceGray").is_prefix_of(
            spelled("\n/ColorSpace /DeviceRGB") + right,
        ),
        !spelled("\n/ColorSpace /DeviceRGB").is_prefix_of(
            spelled("\n/ColorSpace /DeviceGray") + right,
        ),
{
    let gray = spelled("\n/ColorSpace /DeviceGray");
    let rgb = spelled("\n/ColorSpace /DeviceRGB");
    reveal_strlit("\n/ColorSpace /DeviceGray");
    reveal_strlit("\n/ColorSpace /DeviceRGB");
    lemma_ascii("\n/ColorSpace /DeviceGray");
    lemma_ascii("\n/ColorSpace /DeviceRGB");
    let i = 20;
    assert(gray[i] != rgb[i]);
    assert((rgb + right)[i] == rgb[i]);
    assert((gray + right)[i] == gray[i]);
    if gray.is_prefix_of(rgb + right) {
        assert((rgb + right).take(gray.len() as int)[i] == gray[i]);
    }
    if rgb.is_prefix_of(gray + right) {
        assert((gray + right).take(rgb.len() as int)[i] == rgb[i]);
    }
}

/// The declared width and height, each under its name, and nothing else there.
proof fn lemma_sizes_named(width: nat, height: nat, space: Seq<u8>, rest: Seq<u8>, n: nat)
    requires
        space == spelled("\n/ColorSpace /DeviceGray") || space == spelled(
            "\n/ColorSpace /DeviceRGB",
        ),
        lacks(rest, 87),
        lacks(rest, 72),
    ensures
        ({
            let text = spelled("/Type /XObject\n/Subtype /Image\n/Width ") + decimal(width) + spelled("\n/Height ") + decimal(height)
                + space + rest;
            &&& holds(text, spelled("/Width ") + decimal(n) + spelled("\n")) <==> width == n
            &&& holds(text, spelled("\n/Height ") + decimal(n) + spelled("\n")) <==> height == n
        }),
{
    lemma_image_words();
    lemma_words_joined();
    let text = spelled("/Type /XObject\n/Subtype /Image\n/Width ") + decimal(width) + spelled("\n/Height ") + decimal(height) + space
        + rest;
    let front = spelled("/Type /XObject\n/Subtype /Image\n");
    let high = spelled("\n/Height ");
    let line = spelled("\n");
    lemma_number_lacks(width, 72);
    lemma_number_lacks(height, 87);
    let after = high + decimal(height) + space + rest;
    assert(text =~= front + spelled("/Width ") + decimal(width) + after);
    lemma_both_lack(high, decimal(height), 87);
    lemma_both_lack(high + decimal(height), space, 87);
    lemma_both_lack(high + decimal(height) + space, rest, 87);
    assert(line =~= after.take(1));
    lemma_one_number(front, spelled("/Width "), width, after, line, 1, 87, n);
    let before = front + spelled("/Width ") + decimal(width);
    assert(text =~= before + high + decimal(height) + (space + rest));
    lemma_both_lack(front, spelled("/Width "), 72);
    lemma_both_lack(front + spelled("/Width "), decimal(width), 72);
    lemma_both_lack(space, rest, 72);
    assert(line =~= (space + rest).take(1));
    lemma_one_number(before, high, height, space + rest, line, 2, 72, n);
}

/// The named colour space, and no other.
proof fn lemma_space_named(width: nat, height: nat, gray: bool, rest: Seq<u8>)
    requires
        lacks(rest, 118),
        rest.len() > 0,
        rest[0] == 10,
    ensures
        ({
            let space = if gray {
                spelled("\n/ColorSpace /DeviceGray")
            } else {
                spelled("\n/ColorSpace /DeviceRGB")
            };
            let text = spelled("/Type /XObject\n/Subtype /Image\n/Width ") + decimal(width) + spelled("\n/Height ") + decimal(height)
                + space + rest;
            &&& holds(text, spelled("\n/ColorSpace /DeviceGray")) <==> gray
            &&& holds(text, spelled("\n/ColorSpace /DeviceRGB")) <==> !gray
        }),
{
    lemma_image_words();
    lemma_words_joined();
    let one = spelled("\n/ColorSpace /DeviceGray");
    let other = spelled("\n/ColorSpace /DeviceRGB");
    let space = if gray {
        one
    } else {
        other
    };
    let front = spelled("/Type /XObject\n/Subtype /Image\n");
    let high = spelled("\n/Height ");
    let before = front + spelled("/Width ") + decimal(width) + high + decimal(height);
    let text = spelled("/Type /XObject\n/Subtype /Image\n/Width ") + decimal(width) + high + decimal(height) + space + rest;
    assert(text =~= before + space + rest);
    lemma_number_lacks(width, 118);
    lemma_number_lacks(height, 118);
    lemma_both_lack(front, spelled("/Width "), 118);
    lemma_both_lack(front + spelled("/Width "), decimal(width), 118);
    lemma_both_lack(front + spelled("/Width ") + decimal(width), high, 118);
    lemma_both_lack(front + spelled("/Width ") + decimal(width) + high, decimal(height), 118);
    reveal(only_at);
    lemma_marked(before, space, rest, one, 16, 118);
    lemma_marked(before, space, rest, other, 16, 118);
    lemma_spaces_differ(rest);
    assert(space =~= (space + rest).take(space.len() as int));
}

/// The dictionary of an image says what its bytes are: its width and height, a
/// colour space with as many components as its pixels have bytes, and the filter
/// of a JPEG for a JPEG alone.
pub proof fn law_image_dictionary_fits_its_bytes(image: ImageSpec, n: nat)
    ensures
        ({
            let text = image.dictionary_text();
            let rgb = image.encoding is Rgb8 || image.encoding is JpegRgb8;
            let jpeg = image.encoding is JpegGray8 || image.encoding is JpegRgb8;
            &&& holds(text, spelled("\n/ColorSpace /DeviceRGB")) <==> rgb
            &&& holds(text, spelled("\n/ColorSpace /DeviceGray")) <==> !rgb
            &&& holds(text, spelled("/Filter /DCTDecode\n")) <==> jpeg
            &&& holds(text, spelled("\n/BitsPerComponent 8\n"))
            &&& holds(text, spelled("/Width ") + decimal(n) + spelled("\n")) <==> image.pixel_width
                == n
            &&& holds(text, spelled("\n/Height ") + decimal(n) + spelled("\n"))
                <==> image.pixel_height == n
        }),
{
    lemma_image_words();
    lemma_words_joined();
    let text = image.dictionary_text();
    let width = image.pixel_width as nat;
    let height = image.pixel_height as nat;
    let rgb = image.encoding is Rgb8 || image.encoding is JpegRgb8;
    let jpeg = image.encoding is JpegGray8 || image.encoding is JpegRgb8;
    let space = if rgb {
        spelled("\n/ColorSpace /DeviceRGB")
    } else {
        spelled("\n/ColorSpace /DeviceGray")
    };
    let bits = spelled("\n/BitsPerComponent 8\n");
    let filter = if jpeg {
        spelled("/Filter /DCTDecode\n")
    } else {
        Seq::empty()
    };
    let high = spelled("\n/Height ");
    let before = spelled("/Type /XObject\n/Subtype /Image\n/Width ") + decimal(width) + high + decimal(height) + space;
    let rest = bits + filter;
    assert(text =~= before + rest);
    lemma_nothing_lacks(87);
    lemma_nothing_lacks(72);
    lemma_nothing_lacks(118);
    lemma_both_lack(bits, filter, 87);
    lemma_both_lack(bits, filter, 72);
    lemma_both_lack(bits, filter, 118);
    lemma_sizes_named(width, height, space, rest, n);
    lemma_space_named(width, height, !rgb, rest);
    lemma_holds(before, bits, filter);
    assert(text =~= before + bits + filter);
    let front = spelled("/Type /XObject\n/Subtype /Image\n");
    let upto = before + bits;
    assert(lacks(upto, 70)) by {
        lemma_number_lacks(width, 70);
        lemma_number_lacks(height, 70);
        lemma_both_lack(front, spelled("/Width "), 70);
        lemma_both_lack(spelled("/Type /XObject\n/Subtype /Image\n/Width "), decimal(width), 70);
        lemma_both_lack(spelled("/Type /XObject\n/Subtype /Image\n/Width ") + decimal(width), high, 70);
        lemma_both_lack(spelled("/Type /XObject\n/Subtype /Image\n/Width ") + decimal(width) + high, decimal(height), 70);
        lemma_both_lack(
            spelled("/Type /XObject\n/Subtype /Image\n/Width ") + decimal(width) + high + decimal(height),
            space,
            70,
        );
        lemma_both_lack(before, bits, 70);
    }
    if jpeg {
        lemma_holds(upto, filter, Seq::empty());
        assert(text =~= upto + filter + Seq::<u8>::empty());
    } else {
        assert(text =~= upto);
        let key = spelled("/Filter /DCTDecode\n");
        assert(key + Seq::<u8>::empty() =~= key);
        lemma_no_number(text, key, Seq::empty(), 1, 70);
    }
}

/// A raw image is accepted exactly with one byte for each component of each
/// pixel, and a JPEG with any bytes, if its sizes are those of a PDF image.
pub proof fn law_image_bytes_are_counted(image: ImageSpec, length: u64)
    ensures
        ({
            let sized = 0 < image.pixel_width <= 2_147_483_647 && 0 < image.pixel_height
                <= 2_147_483_647;
            let pixels = image.pixel_width * image.pixel_height;
            image.failure(length) is None <==> sized && match image.encoding {
                ImageEncoding::Gray8 => length == pixels,
                ImageEncoding::Rgb8 => length == 3 * pixels,
                ImageEncoding::JpegGray8 | ImageEncoding::JpegRgb8 => length > 0,
            }
        }),
{
    assert(MAX_PDF_INTEGER == 2_147_483_647);
    let pixels = image.pixel_width * image.pixel_height;
    assert(image.pixel_width * image.pixel_height * 3 == 3 * pixels);
    assert(image.pixel_width * image.pixel_height * 1 == pixels);
}

/// The dictionary of a bilevel image says its sizes, one gray component of one
/// bit, and that a set bit is black.
pub proof fn law_bilevel_dictionary_fits_its_bits(image: BilevelImageSpec, n: nat)
    ensures
        ({
            let text = image.dictionary_text();
            &&& holds(text, spelled("\n/ColorSpace /DeviceGray"))
            &&& !holds(text, spelled("\n/ColorSpace /DeviceRGB"))
            &&& holds(text, spelled("/BitsPerComponent 1\n/Decode [1 0]\n"))
            &&& !holds(text, spelled("/Filter /DCTDecode\n"))
            &&& holds(text, spelled("/Width ") + decimal(n) + spelled("\n")) <==> image.pixel_width
                == n
            &&& holds(text, spelled("\n/Height ") + decimal(n) + spelled("\n"))
                <==> image.pixel_height == n
        }),
{
    lemma_image_words();
    lemma_words_joined();
    let text = image.dictionary_text();
    let width = image.pixel_width as nat;
    let height = image.pixel_height as nat;
    let space = spelled("\n/ColorSpace /DeviceGray");
    let bits = spelled("/BitsPerComponent 1\n/Decode [1 0]\n");
    let rest = spelled("\n") + bits;
    let front = spelled("/Type /XObject\n/Subtype /Image\n");
    let head = spelled("/Type /XObject\n/Subtype /Image\n/Width ");
    let high = spelled("\n/Height ");
    let before = head + decimal(width) + high + decimal(height) + space;
    assert(text =~= before + rest);
    lemma_both_lack(spelled("\n"), bits, 87);
    lemma_both_lack(spelled("\n"), bits, 72);
    lemma_both_lack(spelled("\n"), bits, 118);
    lemma_both_lack(spelled("\n"), bits, 70);
    lemma_sizes_named(width, height, space, rest, n);
    lemma_space_named(width, height, true, rest);
    lemma_holds(before + spelled("\n"), bits, Seq::empty());
    assert(text =~= before + spelled("\n") + bits + Seq::<u8>::empty());
    lemma_number_lacks(width, 70);
    lemma_number_lacks(height, 70);
    lemma_both_lack(front, spelled("/Width "), 70);
    lemma_both_lack(head, decimal(width), 70);
    lemma_both_lack(head + decimal(width), high, 70);
    lemma_both_lack(head + decimal(width) + high, decimal(height), 70);
    lemma_both_lack(head + decimal(width) + high + decimal(height), space, 70);
    lemma_both_lack(before, rest, 70);
    let key = spelled("/Filter /DCTDecode\n");
    assert(key + Seq::<u8>::empty() =~= key);
    lemma_no_number(text, key, Seq::empty(), 1, 70);
}

/// A bilevel image is accepted exactly where each row has room for a bit per
/// pixel and the sizes are those of a PDF image.
pub proof fn law_bilevel_rows_are_counted(image: BilevelImageSpec)
    ensures
        ({
            let sized = 0 < image.pixel_width <= 2_147_483_647 && 0 < image.pixel_height
                <= 2_147_483_647;
            image.failure() is None <==> exists|visible: int|
                #![trigger visible * image.pixel_height]
                {
                    &&& sized
                    &&& 8 * (visible - 1) < image.pixel_width <= 8 * visible
                    &&& visible <= image.row_stride
                    &&& visible * image.pixel_height <= 2_147_483_647
                    &&& image.row_stride * image.pixel_height <= u64::MAX
                }
        }),
{
    assert(MAX_PDF_INTEGER == 2_147_483_647);
    let visible = (image.pixel_width + 7) / 8;
    assert(visible * image.pixel_height == visible * image.pixel_height);
    assert(8 * (visible - 1) < image.pixel_width <= 8 * visible || image.pixel_width == 0);
}

} // verus!
