//! Reading scanned pages: the page tag that a barcode carries, and the pixels
//! of a rendered page.

use vstd::prelude::*;
use crate::imaging::{RgbaGrid, rgba_wf};
use crate::text::{push_char, decimal, digit_char};

verus! {

/// The value of a decimal digit character.
pub open spec fn digit_value(c: char) -> int {
    c as int - '0' as int
}

/// The character is a decimal digit.
pub open spec fn is_digit(c: char) -> bool {
    '0' <= c <= '9'
}

/// The value of a string of decimal digits.
pub open spec fn digits_value(s: Seq<char>) -> int
    decreases s.len(),
{
    if s.len() == 0 { 0 } else { digits_value(s.drop_last()) * 10 + digit_value(s.last()) }
}

/// The digits of an unsigned number in text: the text without one leading `+`.
pub open spec fn unsigned_digits(s: Seq<char>) -> Seq<char> {
    if s.len() > 0 && s[0] == '+' { s.drop_first() } else { s }
}

/// What `str::parse::<u32>` gives: the value of the text when it is an optional
/// `+` followed by at least one decimal digit and nothing else, and the value
/// fits in `u32`; `None` otherwise.
pub open spec fn parse_u32(s: Seq<char>) -> Option<u32> {
    let d = unsigned_digits(s);
    if d.len() > 0 && (forall|i: int| 0 <= i < d.len() ==> is_digit(#[trigger] d[i])) && digits_value(d) <= u32::MAX {
        Some(digits_value(d) as u32)
    } else {
        None
    }
}

/// The position of the first `@` in the text.
pub open spec fn first_at(s: Seq<char>, k: int) -> bool {
    0 <= k < s.len() && s[k] == '@' && forall|i: int| 0 <= i < k ==> s[i] != '@'
}

proof fn lemma_digits_value_nonneg(s: Seq<char>)
    requires
        forall|i: int| 0 <= i < s.len() ==> is_digit(#[trigger] s[i]),
    ensures
        digits_value(s) >= 0,
    decreases s.len(),
{
    if s.len() > 0 {
        lemma_digits_value_nonneg(s.drop_last());
    }
}

proof fn lemma_digits_value_monotone(s: Seq<char>, k: int)
    requires
        0 <= k <= s.len(),
        forall|i: int| 0 <= i < s.len() ==> is_digit(#[trigger] s[i]),
    ensures
        0 <= digits_value(s.take(k)) <= digits_value(s),
    decreases s.len(),
{
    if k == s.len() {
        assert(s.take(k) =~= s);
        lemma_digits_value_nonneg(s);
    } else {
        lemma_digits_value_monotone(s.drop_last(), k);
        assert(s.drop_last().take(k) =~= s.take(k));
        lemma_digits_value_nonneg(s.drop_last());
    }
}

/// Parses an unsigned decimal number as `str::parse::<u32>` does.
pub fn parse_u32_text(s: &str) -> (r: Option<u32>)
    ensures
        r == parse_u32(s@),
{
    let n = s.unicode_len();
    let mut start: usize = 0;
    if n > 0 && s.get_char(0) == '+' {
        start = 1;
    }
    let ghost d = unsigned_digits(s@);
    assert(d =~= s@.skip(start as int));
    if start >= n {
        return None;
    }
    let mut value: u64 = 0;
    let mut i: usize = start;
    while i < n
        invariant
            n == s@.len(),
            d == s@.skip(start as int),
            d == unsigned_digits(s@),
            start <= i <= n,
            forall|k: int| 0 <= k < i - start ==> is_digit(#[trigger] d[k]),
            value == digits_value(d.take(i - start)),
            value <= u32::MAX,
        decreases n - i,
    {
        let c = s.get_char(i);
        assert(d[i - start] == c);
        if !('0' <= c && c <= '9') {
            assert(!is_digit(d[i - start]));
            return None;
        }
        proof {
            assert(d.take(i + 1 - start).drop_last() =~= d.take(i - start));
            assert(d.take(i + 1 - start).last() == c);
        }
        let digit = (c as u32 - '0' as u32) as u64;
        assert(digit == digit_value(c));
        value = value * 10 + digit;
        assert(value == digits_value(d.take(i + 1 - start)));
        if value > 0xffff_ffff {
            proof {
                assert forall|k: int| 0 <= k < d.len() && k < i + 1 - start implies is_digit(#[trigger] d[k]) by {}
                if forall|k: int| 0 <= k < d.len() ==> is_digit(#[trigger] d[k]) {
                    lemma_digits_value_monotone(d, i + 1 - start);
                }
            }
            return None;
        }
        i = i + 1;
    }
    assert(d.take(n - start) =~= d);
    Some(value as u32)
}

/// `r` splits the text at its first `@` into the user name before it and the
/// page number after it as `str::parse::<u32>` reads it; `None` when the text
/// holds no `@`.
pub open spec fn tag_split(text: Seq<char>, r: Option<(String, Option<u32>)>) -> bool {
    match r {
        Some((user, page)) => exists|k: int| #[trigger] first_at(text, k) && user@ == text.take(k)
            && page == parse_u32(text.skip(k + 1)),
        None => forall|i: int| 0 <= i < text.len() ==> text[i] != '@',
    }
}

/// Splits the text of a page tag `username@page` at its first `@`: the user
/// name and the page number as `str::parse::<u32>` reads it; `None` when there
/// is no `@`.
pub fn parse_page_tag(text: &str) -> (r: Option<(String, Option<u32>)>)
    ensures
        tag_split(text@, r),
{
    let n = text.unicode_len();
    let mut k: usize = 0;
    let mut user = String::new();
    while k < n
        invariant
            n == text@.len(),
            0 <= k <= n,
            forall|i: int| 0 <= i < k ==> text@[i] != '@',
            user@ == text@.take(k as int),
        decreases n - k,
    {
        let c = text.get_char(k);
        if c == '@' {
            let rest = text.substring_char(k + 1, n);
            assert(rest@ =~= text@.skip(k + 1));
            let page = parse_u32_text(rest);
            assert(first_at(text@, k as int));
            return Some((user, page));
        }
        push_char(&mut user, c);
        assert(user@ =~= text@.take(k + 1));
        k = k + 1;
    }
    None
}

/// Calls `rxing::helpers::detect_in_image` for PDF417 barcodes and takes the
/// decoded text; an error (no barcode decoded) becomes `None`. Nothing is
/// promised of the outcome: among equally likely codeword values the decoder
/// picks by walking hash maps seeded per process, so the text read from one
/// raster may differ from run to run.
#[verifier::external_body]
fn read_pdf417(img: &RgbaGrid) -> (text: Option<String>)
    requires
        rgba_wf(img@),
{
    let buffer = image::RgbaImage::from_raw(img.width, img.height, img.pixels.clone()).unwrap();
    let page = image::DynamicImage::ImageRgba8(buffer);
    match rxing::helpers::detect_in_image(page, Some(rxing::BarcodeFormat::PDF_417)) {
        Ok(result) => Some(result.getText().to_string()),
        Err(_) => None,
    }
}

/// The text of the PDF417 barcode of a rendered page, if one is decoded: the
/// page tag, which `parse_page_tag` splits into user name and page number.
pub fn read_page_tag(img: &RgbaGrid) -> (text: Option<String>)
    requires
        rgba_wf(img@),
{
    read_pdf417(img)
}

/// Pixel `(x, y)` of a `width` by `height` raster, each pixel four bytes
/// `(b, g, r, a)` with rows `stride` bytes apart, lies inside the data.
pub open spec fn bgra_in_bounds(len: int, stride: int, width: int, height: int) -> bool {
    width == 0 || height == 0 || (height - 1) * stride + width * 4 <= len
}

/// Byte `c` (0 red, 1 green, 2 blue, 3 alpha) of pixel `(x, y)` of the
/// converted raster: the bytes of the source pixel, which come as blue, green,
/// red, alpha, in the order red, green, blue, alpha.
pub open spec fn rgba_from_bgra(data: Seq<u8>, stride: int, x: int, y: int, c: int) -> u8 {
    let offset = y * stride + x * 4;
    if c == 0 { data[offset + 2] } else if c == 1 { data[offset + 1] } else if c == 2 { data[offset] } else { data[offset + 3] }
}

proof fn lemma_offset_in_bounds(len: int, stride: int, width: int, height: int, x: int, y: int)
    requires
        0 <= x < width,
        0 <= y < height,
        0 <= stride,
        bgra_in_bounds(len, stride, width, height),
    ensures
        0 <= y * stride + x * 4,
        y * stride + x * 4 + 3 < len,
{
    assert(y * stride <= (height - 1) * stride && 0 <= y * stride) by (nonlinear_arith)
        requires
            0 <= y < height,
            0 <= stride,
    ;
}

/// Converts the pixels of a rendered page, stored as blue, green, red, alpha
/// with rows `stride` bytes apart, into an RGBA raster.
pub fn bgra_to_rgba(data: &[u8], stride: usize, width: u32, height: u32) -> (img: RgbaGrid)
    requires
        bgra_in_bounds(data@.len() as int, stride as int, width as int, height as int),
        4 * width * height <= usize::MAX,
    ensures
        img.width == width,
        img.height == height,
        rgba_wf(img@),
        forall|x: int, y: int, c: int| 0 <= x < width && 0 <= y < height && 0 <= c < 4 ==>
            #[trigger] img.pixels@[4 * (y * width + x) + c] == rgba_from_bgra(data@, stride as int, x, y, c),
{
    let dlen = data.len();
    let mut pixels: Vec<u8> = Vec::new();
    let mut y: u32 = 0;
    while y < height
        invariant
            bgra_in_bounds(data@.len() as int, stride as int, width as int, height as int),
            4 * width * height <= usize::MAX,
            dlen == data@.len(),
            0 <= y <= height,
            pixels@.len() == 4 * (y * width),
            forall|px: int, py: int, c: int| 0 <= px < width && 0 <= py < y && 0 <= c < 4 ==>
                #[trigger] pixels@[4 * (py * width + px) + c] == rgba_from_bgra(data@, stride as int, px, py, c),
        decreases height - y,
    {
        let mut x: u32 = 0;
        while x < width
            invariant
                bgra_in_bounds(data@.len() as int, stride as int, width as int, height as int),
                4 * width * height <= usize::MAX,
                dlen == data@.len(),
                y < height,
                0 <= x <= width,
                pixels@.len() == 4 * (y * width + x),
                forall|px: int, py: int, c: int| 0 <= px < width && 0 <= py < y && 0 <= c < 4 ==>
                    #[trigger] pixels@[4 * (py * width + px) + c] == rgba_from_bgra(data@, stride as int, px, py, c),
                forall|px: int, c: int| 0 <= px < x && 0 <= c < 4 ==>
                    #[trigger] pixels@[4 * (y * width + px) + c] == rgba_from_bgra(data@, stride as int, px, y as int, c),
            decreases width - x,
        {
            proof {
                lemma_offset_in_bounds(data@.len() as int, stride as int, width as int, height as int, x as int, y as int);
            }
            let offset = y as usize * stride + x as usize * 4;
            let b = data[offset];
            let g = data[offset + 1];
            let r = data[offset + 2];
            let a = data[offset + 3];
            let ghost before = pixels@;
            pixels.push(r);
            pixels.push(g);
            pixels.push(b);
            pixels.push(a);
            proof {
                assert forall|px: int, py: int, c: int| 0 <= px < width && 0 <= py < y && 0 <= c < 4 implies
                    #[trigger] pixels@[4 * (py * width + px) + c] == rgba_from_bgra(data@, stride as int, px, py, c) by {
                    assert(4 * (py * width + px) + c < 4 * (y * width)) by (nonlinear_arith)
                        requires
                            0 <= px < width,
                            0 <= py < y,
                            0 <= c < 4,
                    ;
                    assert(pixels@[4 * (py * width + px) + c] == before[4 * (py * width + px) + c]);
                }
                assert forall|px: int, c: int| 0 <= px < x + 1 && 0 <= c < 4 implies
                    #[trigger] pixels@[4 * (y * width + px) + c] == rgba_from_bgra(data@, stride as int, px, y as int, c) by {
                    if px < x {
                        assert(pixels@[4 * (y * width + px) + c] == before[4 * (y * width + px) + c]);
                    }
                }
            }
            x = x + 1;
        }
        assert(4 * (y * width + width) == 4 * ((y + 1) * width)) by (nonlinear_arith);
        y = y + 1;
    }
    assert(4 * (height * width) == 4 * width * height) by (nonlinear_arith);
    RgbaGrid { width, height, pixels }
}


proof fn lemma_digit_char(d: int)
    requires
        0 <= d < 10,
    ensures
        is_digit(digit_char(d)),
        digit_value(digit_char(d)) == d,
{
    let b = (48 + d) as u8;
    assert(b == 48 + d);
    assert((b as char) as int == b as int);
}

/// The decimal representation of a number is made of digits and spells the number.
pub proof fn lemma_decimal_digits(n: nat)
    ensures
        decimal(n).len() > 0,
        forall|i: int| 0 <= i < decimal(n).len() ==> is_digit(#[trigger] decimal(n)[i]),
        digits_value(decimal(n)) == n,
    decreases n,
{
    lemma_digit_char((n % 10) as int);
    if n < 10 {
        assert(decimal(n) =~= seq![digit_char(n as int)]);
        assert(decimal(n).drop_last() =~= Seq::<char>::empty());
        assert(digits_value(decimal(n).drop_last()) == 0);
        assert(decimal(n).last() == digit_char(n as int));
        assert(n % 10 == n);
    } else {
        lemma_decimal_digits(n / 10);
        assert(decimal(n).drop_last() =~= decimal(n / 10));
        assert(decimal(n).last() == digit_char((n % 10) as int));
        assert(digits_value(decimal(n)) == digits_value(decimal(n / 10)) * 10 + digit_value(digit_char((n % 10) as int)));
        assert forall|i: int| 0 <= i < decimal(n).len() implies is_digit(#[trigger] decimal(n)[i]) by {
            if i < decimal(n).len() - 1 {
                assert(decimal(n)[i] == decimal(n / 10)[i]);
            }
        }
    }
}

/// A page number written in decimal is read back as the same number.
pub proof fn lemma_page_number_roundtrip(n: u32)
    ensures
        parse_u32(decimal(n as nat)) == Some(n),
{
    lemma_decimal_digits(n as nat);
    let d = decimal(n as nat);
    assert(is_digit(d[0]));
    assert(unsigned_digits(d) == d);
}

/// A page tag written as the user name, `@` and the page number in decimal is
/// split back into the same user name and page number, provided the user name
/// holds no `@`.
pub proof fn lemma_page_tag_roundtrip(user: Seq<char>, page: u32)
    requires
        forall|i: int| 0 <= i < user.len() ==> user[i] != '@',
    ensures
        first_at(user + seq!['@'] + decimal(page as nat), user.len() as int),
        (user + seq!['@'] + decimal(page as nat)).take(user.len() as int) == user,
        parse_u32((user + seq!['@'] + decimal(page as nat)).skip(user.len() as int + 1)) == Some(page),
        forall|r: Option<(String, Option<u32>)>| #[trigger] tag_split(user + seq!['@'] + decimal(page as nat), r) ==>
            (r matches Some((u, p)) && u@ == user && p == Some(page)),
{
    let text = user + seq!['@'] + decimal(page as nat);
    assert(text.take(user.len() as int) =~= user);
    assert(text.skip(user.len() as int + 1) =~= decimal(page as nat));
    lemma_page_number_roundtrip(page);
    assert forall|i: int| 0 <= i < user.len() implies text[i] != '@' by {
        assert(text[i] == user[i]);
    }
    assert forall|k: int| #[trigger] first_at(text, k) implies k == user.len() by {
        if k < user.len() {
            assert(text[k] == user[k]);
        } else if k > user.len() {
            assert(text[user.len() as int] == '@');
        }
    }
    assert forall|r: Option<(String, Option<u32>)>| #[trigger] tag_split(text, r) implies
        (r matches Some((u, p)) && u@ == user && p == Some(page)) by {
        assert(text[user.len() as int] == '@');
    }
}

} // verus!
