//! Binary PPM (P6) images with a maximum color value of 255.
//!
//! A P6 file is a header of four whitespace-separated tokens (the magic
//! number `P6`, the width, the height and the maximum color value), in which
//! `#` starts a comment that runs to the end of the line, followed by exactly
//! one whitespace byte (or `\r\n`) and then `width * height * 3` bytes of RGB
//! pixel data, row by row from the top.

use vstd::prelude::*;
use vstd::slice::slice_to_vec;
use vstd::utf8::{
    decode_utf8, encode_utf8, encode_utf8_decode_utf8, is_leading_byte_width_1, pop_first_scalar,
    valid_utf8,
};

use crate::error::AppError;
use crate::text::{decimal, push_decimal, push_str};

verus! {

/// A decoded image: `pixels` holds `width * height` RGB triples, row by row
/// from the top-left corner.
#[derive(Debug)]
pub struct Image {
    pub width: u32,
    pub height: u32,
    pub pixels: Vec<u8>,
}

// ---------------------------------------------------------------------------
// The header grammar, as spec functions over the file's bytes.
// ---------------------------------------------------------------------------

/// The bytes that `u8::is_ascii_whitespace` accepts: tab, line feed, form
/// feed, carriage return and space.
pub open spec fn is_ascii_space(b: u8) -> bool {
    b == 9 || b == 10 || b == 12 || b == 13 || b == 32
}

/// The first position at or after `p` that does not hold whitespace.
pub open spec fn skip_spaces(s: Seq<u8>, p: int) -> int
    decreases s.len() - p,
{
    if 0 <= p < s.len() && is_ascii_space(s[p]) {
        skip_spaces(s, p + 1)
    } else {
        p
    }
}

/// The first position at or after `p` that holds a line feed, or the end.
pub open spec fn skip_line(s: Seq<u8>, p: int) -> int
    decreases s.len() - p,
{
    if 0 <= p < s.len() && s[p] != 10 {
        skip_line(s, p + 1)
    } else {
        p
    }
}

pub proof fn lemma_skip_spaces_bounds(s: Seq<u8>, p: int)
    requires
        0 <= p <= s.len(),
    ensures
        p <= skip_spaces(s, p) <= s.len(),
    decreases s.len() - p,
{
    if p < s.len() && is_ascii_space(s[p]) {
        lemma_skip_spaces_bounds(s, p + 1);
    }
}

pub proof fn lemma_skip_line_bounds(s: Seq<u8>, p: int)
    requires
        0 <= p <= s.len(),
    ensures
        p <= skip_line(s, p) <= s.len(),
    decreases s.len() - p,
{
    if p < s.len() && s[p] != 10 {
        lemma_skip_line_bounds(s, p + 1);
    }
}

/// The first position at or after `p` that is neither whitespace nor inside
/// a comment.
pub open spec fn skip_blank(s: Seq<u8>, p: int) -> int
    decreases s.len() - p,
{
    if 0 <= p <= s.len() {
        let q = skip_spaces(s, p);
        if 0 <= q < s.len() && s[q] == 35 {
            proof {
                lemma_skip_spaces_bounds(s, p);
                lemma_skip_line_bounds(s, q + 1);
            }
            skip_blank(s, skip_line(s, q + 1))
        } else {
            q
        }
    } else {
        p
    }
}

/// The end of the token that starts at `p`: it runs up to the next
/// whitespace byte, the next `#` or the end of the input.
pub open spec fn token_end(s: Seq<u8>, p: int) -> int
    decreases s.len() - p,
{
    if 0 <= p < s.len() && !is_ascii_space(s[p]) && s[p] != 35 {
        token_end(s, p + 1)
    } else {
        p
    }
}

/// Where the next header token lies when scanning resumes at `p`: its start
/// and end, or `None` when no token is left.
pub open spec fn header_token(s: Seq<u8>, p: int) -> Option<(int, int)> {
    let start = skip_blank(s, p);
    let end = token_end(s, start);
    if start == end {
        None
    } else {
        Some((start, end))
    }
}

/// Where the pixel data starts when the header ends at `p`: one whitespace
/// byte, or a `\r\n` pair, separates them.
pub open spec fn pixel_data_start(s: Seq<u8>, p: int) -> Option<int> {
    if 0 <= p < s.len() && is_ascii_space(s[p]) {
        if s[p] == 13 && p + 1 < s.len() && s[p + 1] == 10 {
            Some(p + 2)
        } else {
            Some(p + 1)
        }
    } else {
        None
    }
}

// ---------------------------------------------------------------------------
// Unsigned decimal numbers, as `str::parse::<u32>` reads them.
// ---------------------------------------------------------------------------

/// Whether `b` is an ASCII decimal digit.
pub open spec fn is_digit(b: u8) -> bool {
    48 <= b <= 57
}

/// Whether every byte of `d` is an ASCII decimal digit.
pub open spec fn all_digits(d: Seq<u8>) -> bool {
    forall|i: int| 0 <= i < d.len() ==> is_digit(#[trigger] d[i])
}

/// The number that the decimal digits `d` write.
pub open spec fn digits_value(d: Seq<u8>) -> nat
    decreases d.len(),
{
    if d.len() == 0 {
        0
    } else {
        digits_value(d.drop_last()) * 10 + (d.last() - 48) as nat
    }
}

/// The digits of an unsigned number: an optional leading `+` is dropped.
pub open spec fn unsigned_digits(s: Seq<u8>) -> Seq<u8> {
    if s.len() > 0 && s[0] == 43 {
        s.drop_first()
    } else {
        s
    }
}

/// The value of the unsigned decimal number `s`, if it is one and is at most
/// `max`: an optional `+`, then at least one digit and nothing else.
pub open spec fn parse_unsigned(s: Seq<u8>, max: nat) -> Option<nat> {
    let d = unsigned_digits(s);
    if d.len() > 0 && all_digits(d) && digits_value(d) <= max {
        Some(digits_value(d))
    } else {
        None
    }
}

proof fn lemma_digits_prefix_le(d: Seq<u8>, k: int)
    requires
        all_digits(d),
        0 <= k <= d.len(),
    ensures
        digits_value(d.subrange(0, k)) <= digits_value(d),
    decreases d.len(),
{
    if k == d.len() {
        assert(d.subrange(0, k) =~= d);
    } else {
        let e = d.drop_last();
        assert(e.subrange(0, k) =~= d.subrange(0, k));
        assert(all_digits(e));
        lemma_digits_prefix_le(e, k);
    }
}

/// Reads `token` as an unsigned 32-bit decimal number.
pub fn parse_u32(token: &[u8]) -> (r: Option<u32>)
    ensures
        r matches Some(v) ==> parse_unsigned(token@, u32::MAX as nat) == Some(v as nat),
        r is None ==> parse_unsigned(token@, u32::MAX as nat) is None,
{
    let ghost s = token@;
    let mut start: usize = 0;
    if token.len() > 0 && token[0] == 43 {
        start = 1;
    }
    let ghost d = unsigned_digits(s);
    assert(d =~= s.subrange(start as int, s.len() as int));
    if start == token.len() {
        return None;
    }
    let mut value: u64 = 0;
    let mut i: usize = start;
    while i < token.len()
        invariant
            start <= i <= token.len() == s.len(),
            token@ == s,
            d == s.subrange(start as int, s.len() as int),
            d == unsigned_digits(s),
            start < s.len(),
            value == digits_value(s.subrange(start as int, i as int)),
            value <= u32::MAX,
            all_digits(s.subrange(start as int, i as int)),
        decreases token.len() - i,
    {
        let b = token[i];
        if !(48 <= b && b <= 57) {
            assert(!is_digit(d[i - start]));
            return None;
        }
        let digit = (b - 48) as u64;
        let ghost next = s.subrange(start as int, i + 1);
        assert(next.drop_last() =~= s.subrange(start as int, i as int));
        assert(all_digits(next));
        assert(digits_value(next) == value * 10 + digit);
        if value > (4294967295u64 - digit) / 10 {
            assert(value * 10 + digit > 4294967295) by (nonlinear_arith)
                requires
                    value > (4294967295u64 - digit) / 10,
                    digit <= 9,
            ;
            proof {
                if all_digits(d) {
                    assert(d.subrange(0, i + 1 - start) =~= next);
                    lemma_digits_prefix_le(d, i + 1 - start);
                }
            }
            return None;
        }
        assert(value * 10 + digit <= 4294967295) by (nonlinear_arith)
            requires
                value <= (4294967295u64 - digit) / 10,
                digit <= 9,
        ;
        value = value * 10 + digit;
        i = i + 1;
    }
    assert(s.subrange(start as int, i as int) =~= d);
    Some(value as u32)
}

// ---------------------------------------------------------------------------
// What parsing a file gives.
// ---------------------------------------------------------------------------

/// What reading the header token `token` as a number named `label` gives:
/// the number, or the message of the error.
pub open spec fn number_result(token: Seq<u8>, label: Seq<char>) -> Result<u32, Seq<char>> {
    if !valid_utf8(token) {
        Err(label + " is not valid ASCII"@)
    } else {
        match parse_unsigned(token, u32::MAX as nat) {
            Some(v) => Ok(v as u32),
            None => Err("invalid "@ + label + " '"@ + decode_utf8(token) + "'"@),
        }
    }
}

/// As `number_result`, for a dimension, which must not be zero.
pub open spec fn dimension_result(token: Seq<u8>, label: Seq<char>) -> Result<u32, Seq<char>> {
    match number_result(token, label) {
        Err(m) => Err(m),
        Ok(v) => if v == 0 {
            Err(label + " must be greater than zero"@)
        } else {
            Ok(v)
        },
    }
}

/// The number of pixel bytes that a `width` by `height` image holds.
pub open spec fn pixel_byte_count(width: u32, height: u32) -> nat {
    width as nat * height as nat * 3
}

/// What the pixel data that starts at `start` gives for a `width` by
/// `height` image.
pub open spec fn pixels_result(s: Seq<u8>, start: int, width: u32, height: u32) -> Result<
    (u32, u32, Seq<u8>),
    Seq<char>,
> {
    let count = pixel_byte_count(width, height);
    if count > usize::MAX {
        Err("image dimensions are too large"@)
    } else if s.len() - start != count {
        Err(
            "expected "@ + decimal(count) + " bytes of pixel data, found "@ + decimal(
                (s.len() - start) as nat,
            ),
        )
    } else {
        Ok((width, height, s.subrange(start, s.len() as int)))
    }
}

/// What the header that continues at `p` with the maximum color value gives
/// for a `width` by `height` image.
pub open spec fn maximum_result(s: Seq<u8>, p: int, width: u32, height: u32) -> Result<
    (u32, u32, Seq<u8>),
    Seq<char>,
> {
    match header_token(s, p) {
        None => Err("incomplete header"@),
        Some((a, b)) => match number_result(s.subrange(a, b), "maximum color value"@) {
            Err(m) => Err(m),
            Ok(maximum) => if maximum != 255 {
                Err("maximum color value must be 255"@)
            } else {
                match pixel_data_start(s, b) {
                    None => Err("missing whitespace before pixel data"@),
                    Some(start) => pixels_result(s, start, width, height),
                }
            },
        },
    }
}

/// What the header that continues at `p` with the height gives for an image
/// `width` pixels wide.
pub open spec fn height_result(s: Seq<u8>, p: int, width: u32) -> Result<
    (u32, u32, Seq<u8>),
    Seq<char>,
> {
    match header_token(s, p) {
        None => Err("incomplete header"@),
        Some((a, b)) => match dimension_result(s.subrange(a, b), "height"@) {
            Err(m) => Err(m),
            Ok(height) => maximum_result(s, b, width, height),
        },
    }
}

/// What the header that continues at `p` with the width gives.
pub open spec fn width_result(s: Seq<u8>, p: int) -> Result<(u32, u32, Seq<u8>), Seq<char>> {
    match header_token(s, p) {
        None => Err("incomplete header"@),
        Some((a, b)) => match dimension_result(s.subrange(a, b), "width"@) {
            Err(m) => Err(m),
            Ok(width) => height_result(s, b, width),
        },
    }
}

/// What parsing the P6 file `s` gives: the width, the height and the pixel
/// bytes, or the message of the first error.
pub open spec fn ppm_result(s: Seq<u8>) -> Result<(u32, u32, Seq<u8>), Seq<char>> {
    match header_token(s, 0) {
        None => Err("incomplete header"@),
        Some((a, b)) => if s.subrange(a, b) != seq![80u8, 54u8] {
            Err("expected P6 magic number"@)
        } else {
            width_result(s, b)
        },
    }
}

/// Whether `r` is `expected`, with an error standing for a PPM error of the
/// same message.
pub open spec fn ppm_outcome<T>(r: Result<T, AppError>, expected: Result<T, Seq<char>>) -> bool {
    match r {
        Ok(v) => expected == Ok::<T, Seq<char>>(v),
        Err(e) => e matches AppError::Ppm(m) && expected == Err::<T, Seq<char>>(m@),
    }
}

/// A PPM error with the given message.
pub fn ppm_error(message: String) -> (e: AppError)
    ensures
        e == AppError::Ppm(message),
{
    AppError::Ppm(message)
}

/// Decodes `bytes` as UTF-8 (`std::str::from_utf8`), as an owned string.
#[verifier::external_body]
fn utf8_text(bytes: &[u8]) -> (r: Option<String>)
    ensures
        r is Some <==> valid_utf8(bytes@),
        r matches Some(t) ==> encode_utf8(t@) == bytes@,
{
    std::str::from_utf8(bytes).ok().map(|text| text.to_string())
}

/// Reads the header token `token` as a number named `label`.
pub fn parse_number(token: &[u8], label: &str) -> (r: Result<u32, AppError>)
    ensures
        ppm_outcome(r, number_result(token@, label@)),
{
    let text = match utf8_text(token) {
        Some(text) => text,
        None => {
            let mut message = String::new();
            push_str(&mut message, label);
            push_str(&mut message, " is not valid ASCII");
            return Err(ppm_error(message));
        },
    };
    proof {
        encode_utf8_decode_utf8(text@);
    }
    match parse_u32(token) {
        Some(v) => Ok(v),
        None => {
            let mut message = String::new();
            push_str(&mut message, "invalid ");
            push_str(&mut message, label);
            push_str(&mut message, " '");
            push_str(&mut message, text.as_str());
            push_str(&mut message, "'");
            assert(message@ =~= "invalid "@ + label@ + " '"@ + decode_utf8(token@) + "'"@);
            Err(ppm_error(message))
        },
    }
}

/// Reads the header token `token` as a dimension named `label`.
pub fn parse_dimension(token: &[u8], label: &str) -> (r: Result<u32, AppError>)
    ensures
        ppm_outcome(r, dimension_result(token@, label@)),
{
    let value = parse_number(token, label)?;
    if value == 0 {
        let mut message = String::new();
        push_str(&mut message, label);
        push_str(&mut message, " must be greater than zero");
        return Err(ppm_error(message));
    }
    Ok(value)
}

// ---------------------------------------------------------------------------
// The header scanner.
// ---------------------------------------------------------------------------

/// A cursor over the bytes of a PPM file that reads its header.
pub struct HeaderScanner<'a> {
    bytes: &'a [u8],
    position: usize,
}

impl<'a> HeaderScanner<'a> {
    #[verifier::type_invariant]
    spec fn inside(self) -> bool {
        self.position <= self.bytes@.len()
    }

    /// The bytes being scanned.
    pub closed spec fn input(self) -> Seq<u8> {
        self.bytes@
    }

    /// Where scanning resumes.
    pub closed spec fn at(self) -> int {
        self.position as int
    }

    /// A scanner at the start of `bytes`.
    pub fn new(bytes: &'a [u8]) -> (scanner: Self)
        ensures
            scanner.input() == bytes@,
            scanner.at() == 0,
    {
        HeaderScanner { bytes, position: 0 }
    }

    /// Moves past whitespace and comments.
    pub fn skip_whitespace_and_comments(&mut self)
        ensures
            final(self).input() == old(self).input(),
            final(self).at() == skip_blank(old(self).input(), old(self).at()),
    {
        proof {
            use_type_invariant(&*self);
        }
        let ghost s = self.bytes@;
        let ghost target = skip_blank(s, self.position as int);
        loop
            invariant
                self.bytes@ == s,
                self.position <= s.len(),
                skip_blank(s, self.position as int) == target,
            ensures
                self.bytes@ == s,
                self.position == target,
            decreases s.len() - self.position,
        {
            let ghost begin = self.position as int;
            while self.position < self.bytes.len() && is_space(self.bytes[self.position])
                invariant
                    self.bytes@ == s,
                    begin <= self.position <= s.len(),
                    skip_spaces(s, begin) == skip_spaces(s, self.position as int),
                decreases s.len() - self.position,
            {
                self.position = self.position + 1;
            }
            if self.position >= self.bytes.len() || self.bytes[self.position] != 35 {
                break;
            }
            let ghost q = self.position as int;
            self.position = self.position + 1;
            while self.position < self.bytes.len() && self.bytes[self.position] != 10
                invariant
                    self.bytes@ == s,
                    q < self.position <= s.len(),
                    skip_line(s, q + 1) == skip_line(s, self.position as int),
                decreases s.len() - self.position,
            {
                self.position = self.position + 1;
            }
        }
    }

    /// The next header token; fails with "incomplete header" when none is
    /// left.
    pub fn token(&mut self) -> (r: Result<&'a [u8], AppError>)
        ensures
            final(self).input() == old(self).input(),
            match header_token(old(self).input(), old(self).at()) {
                Some((start, end)) => r matches Ok(t) && t@ == old(self).input().subrange(
                    start,
                    end,
                ) && final(self).at() == end,
                None => r matches Err(e) && e == AppError::Ppm(e->Ppm_0) && e->Ppm_0@
                    == "incomplete header"@ && final(self).at() == skip_blank(
                    old(self).input(),
                    old(self).at(),
                ),
            },
    {
        proof {
            use_type_invariant(&*self);
        }
        let ghost s = self.bytes@;
        let ghost p = self.position as int;
        self.skip_whitespace_and_comments();
        proof {
            use_type_invariant(&*self);
        }
        let start = self.position;
        while self.position < self.bytes.len() && !is_space(self.bytes[self.position])
            && self.bytes[self.position] != 35
            invariant
                self.bytes@ == s,
                start <= self.position <= s.len(),
                token_end(s, start as int) == token_end(s, self.position as int),
            decreases s.len() - self.position,
        {
            self.position = self.position + 1;
        }
        if start == self.position {
            return Err(ppm_error(String::from_str("incomplete header")));
        }
        Ok(&self.bytes[start..self.position])
    }

    /// Moves past the single whitespace byte (or `\r\n`) that ends the
    /// header and gives where the pixel data starts.
    pub fn pixel_start(&mut self) -> (r: Result<usize, AppError>)
        ensures
            final(self).input() == old(self).input(),
            match pixel_data_start(old(self).input(), old(self).at()) {
                Some(start) => r == Ok::<usize, AppError>(start as usize) && final(self).at()
                    == start,
                None => r matches Err(e) && e == AppError::Ppm(e->Ppm_0) && e->Ppm_0@
                    == "missing whitespace before pixel data"@ && final(self).at() == old(
                    self,
                ).at(),
            },
    {
        proof {
            use_type_invariant(&*self);
        }
        if self.position >= self.bytes.len() {
            return Err(ppm_error(String::from_str("missing whitespace before pixel data")));
        }
        let separator = self.bytes[self.position];
        if !is_space(separator) {
            return Err(ppm_error(String::from_str("missing whitespace before pixel data")));
        }
        self.position = self.position + 1;
        if separator == 13 && self.position < self.bytes.len() && self.bytes[self.position] == 10 {
            self.position = self.position + 1;
        }
        Ok(self.position)
    }
}

/// Whether `b` is ASCII whitespace (`u8::is_ascii_whitespace`).
pub fn is_space(b: u8) -> (r: bool)
    ensures
        r == is_ascii_space(b),
{
    b == 9 || b == 10 || b == 12 || b == 13 || b == 32
}

// ---------------------------------------------------------------------------
// Parsing a file.
// ---------------------------------------------------------------------------

/// Decodes the binary PPM file `bytes`.
pub fn parse(bytes: &[u8]) -> (r: Result<Image, AppError>)
    ensures
        match r {
            Ok(image) => ppm_result(bytes@) == Ok::<(u32, u32, Seq<u8>), Seq<char>>(
                (image.width, image.height, image.pixels@),
            ),
            Err(e) => e matches AppError::Ppm(m) && ppm_result(bytes@) == Err::<
                (u32, u32, Seq<u8>),
                Seq<char>,
            >(m@),
        },
{
    let ghost s = bytes@;
    let mut scanner = HeaderScanner::new(bytes);
    let magic = scanner.token()?;
    let ghost (a0, b0) = header_token(s, 0)->0;
    if !(magic.len() == 2 && magic[0] == 80 && magic[1] == 54) {
        assert(magic@ != seq![80u8, 54u8]);
        return Err(ppm_error(String::from_str("expected P6 magic number")));
    }
    assert(magic@ =~= seq![80u8, 54u8]);
    let width = parse_dimension(scanner.token()?, "width")?;
    let height = parse_dimension(scanner.token()?, "height")?;
    let maximum = parse_number(scanner.token()?, "maximum color value")?;
    if maximum != 255 {
        return Err(ppm_error(String::from_str("maximum color value must be 255")));
    }
    let pixel_start = scanner.pixel_start()?;
    let ghost count = pixel_byte_count(width, height);
    let pixel_count = match (width as usize).checked_mul(height as usize) {
        Some(area) => match area.checked_mul(3) {
            Some(count) => count,
            None => {
                return Err(ppm_error(String::from_str("image dimensions are too large")));
            },
        },
        None => {
            assert(width as nat * height as nat * 3 >= width as nat * height as nat)
                by (nonlinear_arith);
            return Err(ppm_error(String::from_str("image dimensions are too large")));
        },
    };
    if pixel_start > bytes.len() {
        return Err(ppm_error(String::from_str("missing pixel data")));
    }
    let pixels = &bytes[pixel_start..bytes.len()];
    if pixels.len() != pixel_count {
        let mut message = String::new();
        push_str(&mut message, "expected ");
        push_decimal(&mut message, pixel_count);
        push_str(&mut message, " bytes of pixel data, found ");
        push_decimal(&mut message, pixels.len());
        return Err(ppm_error(message));
    }
    Ok(Image { width, height, pixels: slice_to_vec(pixels) })
}

/// The decimal notation of `n` in ASCII bytes, without leading zeros.
pub open spec fn decimal_bytes(n: nat) -> Seq<u8>
    decreases n,
{
    if n < 10 {
        seq![(n + 48) as u8]
    } else {
        decimal_bytes(n / 10).push((n % 10 + 48) as u8)
    }
}

/// The P6 file of a `width` by `height` image with pixel bytes `pixels`, as
/// the shortest header writes it: `P6`, a line feed, the width, a space, the
/// height, a line feed, `255` and a line feed.
pub open spec fn p6_file(width: u32, height: u32, pixels: Seq<u8>) -> Seq<u8> {
    seq![80u8, 54u8, 10u8] + decimal_bytes(width as nat) + seq![32u8] + decimal_bytes(
        height as nat,
    ) + seq![10u8] + decimal_bytes(255) + seq![10u8] + pixels
}

proof fn lemma_decimal_bytes(n: nat)
    ensures
        decimal_bytes(n).len() >= 1,
        all_digits(decimal_bytes(n)),
        digits_value(decimal_bytes(n)) == n,
    decreases n,
{
    let d = decimal_bytes(n);
    if n < 10 {
        assert(d.drop_last() =~= Seq::<u8>::empty());
        assert(d.last() == n + 48);
        assert(digits_value(d) == digits_value(d.drop_last()) * 10 + (d.last() - 48) as nat);
        assert(digits_value(d.drop_last()) == 0);
    } else {
        lemma_decimal_bytes(n / 10);
        let e = decimal_bytes(n / 10);
        assert(d.drop_last() =~= e);
        assert(d.last() == n % 10 + 48);
        assert(n == (n / 10) * 10 + n % 10) by (nonlinear_arith);
        assert(digits_value(d) == digits_value(e) * 10 + (d.last() - 48) as nat);
        assert forall|i: int| 0 <= i < d.len() implies is_digit(#[trigger] d[i]) by {
            if i < e.len() {
                assert(d[i] == e[i]);
            }
        }
    }
}

proof fn lemma_ascii_valid_utf8(d: Seq<u8>)
    requires
        forall|i: int| 0 <= i < d.len() ==> #[trigger] d[i] < 128,
    ensures
        valid_utf8(d),
    decreases d.len(),
{
    if d.len() > 0 {
        let rest = d.subrange(1, d.len() as int);
        assert forall|i: int| 0 <= i < rest.len() implies #[trigger] rest[i] < 128 by {
            assert(rest[i] == d[i + 1]);
        }
        lemma_ascii_valid_utf8(rest);
        assert(d[0] < 128);
        assert(is_leading_byte_width_1(d[0]));
        assert(pop_first_scalar(d) =~= rest);
    }
}

proof fn lemma_decimal_number(n: nat, label: Seq<char>)
    requires
        n <= u32::MAX,
    ensures
        number_result(decimal_bytes(n), label) == Ok::<u32, Seq<char>>(n as u32),
{
    let d = decimal_bytes(n);
    lemma_decimal_bytes(n);
    assert forall|i: int| 0 <= i < d.len() implies #[trigger] d[i] < 128 by {
        assert(is_digit(d[i]));
    }
    lemma_ascii_valid_utf8(d);
    assert(is_digit(d[0]));
    assert(unsigned_digits(d) == d);
}

proof fn lemma_token_end_run(s: Seq<u8>, p: int, q: int)
    requires
        0 <= p <= q < s.len(),
        forall|i: int| p <= i < q ==> !is_ascii_space(#[trigger] s[i]) && s[i] != 35,
        is_ascii_space(s[q]),
    ensures
        token_end(s, p) == q,
    decreases q - p,
{
    if p < q {
        lemma_token_end_run(s, p + 1, q);
    }
}

/// A token of digits `d` that follows the whitespace byte at `sep` and is
/// followed by another whitespace byte is the next header token after `sep`.
proof fn lemma_digit_token(s: Seq<u8>, sep: int, d: Seq<u8>)
    requires
        0 <= sep,
        sep + d.len() + 1 < s.len(),
        d.len() >= 1,
        all_digits(d),
        is_ascii_space(s[sep]),
        s.subrange(sep + 1, sep + 1 + d.len()) == d,
        is_ascii_space(s[sep + 1 + d.len()]),
    ensures
        header_token(s, sep) == Some((sep + 1, sep + 1 + d.len())),
{
    let a = sep + 1;
    let b = sep + 1 + d.len();
    assert(is_digit(d[0]));
    assert(s[a] == d[0]);
    assert(skip_spaces(s, a) == a);
    assert(skip_spaces(s, sep) == a);
    assert(skip_blank(s, sep) == a);
    assert forall|i: int| a <= i < b implies !is_ascii_space(#[trigger] s[i]) && s[i] != 35 by {
        assert(s[i] == d[i - a]);
        assert(is_digit(d[i - a]));
    }
    lemma_token_end_run(s, a, b);
}

/// A P6 file written with the shortest header (`P6`, the width and height in
/// decimal, `255`, each followed by one whitespace byte) and then exactly
/// three bytes for each pixel decodes to that width, that height and those
/// pixel bytes, whatever the bytes are (they may begin with whitespace or
/// `#`).
pub proof fn p6_files_decode_to_their_pixels(width: u32, height: u32, pixels: Seq<u8>)
    requires
        width > 0,
        height > 0,
        pixels.len() == pixel_byte_count(width, height),
        pixel_byte_count(width, height) <= usize::MAX,
    ensures
        ppm_result(p6_file(width, height, pixels)) == Ok::<(u32, u32, Seq<u8>), Seq<char>>(
            (width, height, pixels),
        ),
{
    let w = decimal_bytes(width as nat);
    let h = decimal_bytes(height as nat);
    let m = decimal_bytes(255);
    lemma_decimal_bytes(width as nat);
    lemma_decimal_bytes(height as nat);
    lemma_decimal_bytes(255);
    lemma_decimal_number(width as nat, "width"@);
    lemma_decimal_number(height as nat, "height"@);
    lemma_decimal_number(255, "maximum color value"@);
    let p1 = seq![80u8, 54u8, 10u8];
    let p2 = p1 + w;
    let p3 = p2 + seq![32u8];
    let p4 = p3 + h;
    let p5 = p4 + seq![10u8];
    let p6 = p5 + m;
    let p7 = p6 + seq![10u8];
    let s = p7 + pixels;
    assert(s == p6_file(width, height, pixels));
    let bw = p2.len() as int;
    let bh = p4.len() as int;
    let bm = p6.len() as int;
    let start = p7.len() as int;
    assert(s[0] == 80u8 && s[1] == 54u8 && s[2] == 10u8);
    assert(s[bw] == 32u8);
    assert(s[bh] == 10u8);
    assert(s[bm] == 10u8);
    assert(s.subrange(3, bw) =~= w);
    assert(s.subrange(bw + 1, bh) =~= h);
    assert(s.subrange(bh + 1, bm) =~= m);
    assert(s.subrange(start, s.len() as int) =~= pixels);
    assert(s.subrange(0, 2) =~= seq![80u8, 54u8]);
    // The magic number.
    assert(skip_spaces(s, 0) == 0);
    assert(skip_blank(s, 0) == 0);
    lemma_token_end_run(s, 0, 2);
    assert(header_token(s, 0) == Some((0int, 2int)));
    // The width, the height and the maximum color value.
    lemma_digit_token(s, 2, w);
    lemma_digit_token(s, bw, h);
    lemma_digit_token(s, bh, m);
    assert(pixel_data_start(s, bm) == Some(start));
}

// ---------------------------------------------------------------------------
// What every decoded image satisfies.
// ---------------------------------------------------------------------------

/// Every decoded image has a width and a height of at least one pixel, and
/// its pixel data, which ends the file, holds exactly three bytes for each
/// of its pixels.
pub proof fn decoded_images_hold_every_pixel(s: Seq<u8>)
    ensures
        ppm_result(s) matches Ok((width, height, pixels)) ==> width > 0 && height > 0
            && pixels.len() == pixel_byte_count(width, height) && pixels == s.subrange(
            s.len() - pixels.len(),
            s.len() as int,
        ),
{
    if let Ok((width, height, pixels)) = ppm_result(s) {
        let (a, b) = header_token(s, 0)->Some_0;
        let (c, d) = header_token(s, b)->Some_0;
        let (e, f) = header_token(s, d)->Some_0;
        let (g, h) = header_token(s, f)->Some_0;
        let start = pixel_data_start(s, h)->Some_0;
        assert(dimension_result(s.subrange(c, d), "width"@) == Ok::<u32, Seq<char>>(width));
        assert(dimension_result(s.subrange(e, f), "height"@) == Ok::<u32, Seq<char>>(height));
        assert(pixels == s.subrange(start, s.len() as int));
    }
}

} // verus!
