//! Base64 text and data URIs of encoded images.

use base64::Engine;
use image::ImageEncoder;
use vstd::prelude::*;

verus! {

/// The character of a six-bit value in standard Base64.
pub open spec fn sextet_char(v: int) -> char {
    if v < 26 {
        (65 + v) as u8 as char
    } else if v < 52 {
        (71 + v) as u8 as char
    } else if v < 62 {
        (v - 4) as u8 as char
    } else if v == 62 {
        '+'
    } else {
        '/'
    }
}

/// The four characters of three bytes.
pub open spec fn quad(a: u8, b: u8, c: u8) -> Seq<char> {
    seq![
        sextet_char(a as int / 4),
        sextet_char((a as int % 4) * 16 + b as int / 16),
        sextet_char((b as int % 16) * 4 + c as int / 64),
        sextet_char(c as int % 64),
    ]
}

/// The characters of the first `k` groups of three bytes.
pub open spec fn quads(data: Seq<u8>, k: int) -> Seq<char>
    decreases k,
{
    if k <= 0 {
        seq![]
    } else {
        quads(data, k - 1) + quad(data[3 * k - 3], data[3 * k - 2], data[3 * k - 1])
    }
}

/// The characters of the one or two bytes left over, padded with `=`.
pub open spec fn tail(data: Seq<u8>) -> Seq<char> {
    let n = data.len() as int;
    if n % 3 == 1 {
        let q = quad(data[n - 1], 0, 0);
        seq![q[0], q[1], '=', '=']
    } else if n % 3 == 2 {
        let q = quad(data[n - 2], data[n - 1], 0);
        seq![q[0], q[1], q[2], '=']
    } else {
        seq![]
    }
}

/// Standard Base64 with padding.
pub open spec fn base64_text(data: Seq<u8>) -> Seq<char> {
    quads(data, data.len() as int / 3) + tail(data)
}

fn push_sextet(out: &mut String, v: u8)
    requires
        v < 64,
    ensures
        final(out)@ == old(out)@.push(sextet_char(v as int)),
{
    if v < 26 {
        out.push((65 + v) as char);
    } else if v < 52 {
        out.push((71 + v) as char);
    } else if v < 62 {
        out.push((v - 4) as char);
    } else if v == 62 {
        out.push('+');
    } else {
        out.push('/');
    }
}

/// Encodes bytes in standard Base64.
pub fn b64_encode(data: &[u8]) -> (out: String)
    ensures
        out@ == base64_text(data@),
{
    let n = data.len();
    let groups: usize = n / 3;
    let mut out = String::new();
    let mut k: usize = 0;
    assert(out@ =~= quads(data@, 0));
    while k < groups
        invariant
            k <= groups,
            groups == n / 3,
            n == data@.len(),
            out@ == quads(data@, k as int),
        decreases groups - k,
    {
        let ghost before = out@;
        let a = data[3 * k];
        let b = data[3 * k + 1];
        let c = data[3 * k + 2];
        push_sextet(&mut out, a / 4);
        push_sextet(&mut out, (a % 4) * 16 + b / 16);
        push_sextet(&mut out, (b % 16) * 4 + c / 64);
        push_sextet(&mut out, c % 64);
        assert(out@ =~= before + quad(a, b, c));
        k += 1;
    }
    let ghost before = out@;
    if n % 3 == 1 {
        let a = data[n - 1];
        push_sextet(&mut out, a / 4);
        push_sextet(&mut out, (a % 4) * 16);
        out.push('=');
        out.push('=');
    } else if n % 3 == 2 {
        let a = data[n - 2];
        let b = data[n - 1];
        push_sextet(&mut out, a / 4);
        push_sextet(&mut out, (a % 4) * 16 + b / 16);
        push_sextet(&mut out, (b % 16) * 4);
        out.push('=');
    }
    assert(out@ =~= before + tail(data@));
    out
}

/// The six-bit value of a character of standard Base64.
pub open spec fn sextet_of(c: char) -> int {
    if 'A' <= c <= 'Z' {
        c as int - 65
    } else if 'a' <= c <= 'z' {
        c as int - 71
    } else if '0' <= c <= '9' {
        c as int + 4
    } else if c == '+' {
        62
    } else {
        63
    }
}

/// The bytes of four characters: three, or one fewer for each padding.
pub open spec fn quad_bytes(a: char, b: char, c: char, d: char) -> Seq<u8> {
    let x = sextet_of(a) * 4 + sextet_of(b) / 16;
    let y = (sextet_of(b) % 16) * 16 + sextet_of(c) / 4;
    let z = (sextet_of(c) % 4) * 64 + sextet_of(d);
    if c == '=' {
        seq![x as u8]
    } else if d == '=' {
        seq![x as u8, y as u8]
    } else {
        seq![x as u8, y as u8, z as u8]
    }
}

/// The bytes of the first `k` groups of four characters.
pub open spec fn decoded(s: Seq<char>, k: int) -> Seq<u8>
    decreases k,
{
    if k <= 0 {
        seq![]
    } else {
        decoded(s, k - 1) + quad_bytes(s[4 * k - 4], s[4 * k - 3], s[4 * k - 2], s[4 * k - 1])
    }
}

/// Decoding the encoded bytes gives the bytes back.
pub proof fn base64_round_trip(data: Seq<u8>)
    ensures
        decoded(base64_text(data), base64_text(data).len() as int / 4) == data,
        base64_text(data).len() % 4 == 0,
{
    let n = data.len() as int;
    let k = n / 3;
    let s = base64_text(data);
    quads_length(data, k);
    full_groups_round_trip(data, s, k);
    if n % 3 == 0 {
        assert(s.len() == 4 * k);
        assert(decoded(s, k) =~= data);
    } else {
        assert(s.len() == 4 * k + 4);
        let m = k + 1;
        assert(s[4 * k] == tail(data)[0]);
        assert(s[4 * k + 1] == tail(data)[1]);
        assert(s[4 * k + 2] == tail(data)[2]);
        assert(s[4 * k + 3] == tail(data)[3]);
        assert(4 * m - 4 == 4 * k);
        if n % 3 == 1 {
            sextets_round_trip(data[n - 1], 0, 0);
            assert(data[n - 1] == data[3 * k]);
            assert(decoded(s, m) =~= data);
        } else {
            sextets_round_trip(data[n - 2], data[n - 1], 0);
            assert(decoded(s, m) =~= data);
        }
    }
}

proof fn quads_length(data: Seq<u8>, k: int)
    requires
        0 <= k,
    ensures
        quads(data, k).len() == 4 * k,
    decreases k,
{
    if k > 0 {
        quads_length(data, k - 1);
    }
}

proof fn sextet_round_trip(v: int)
    requires
        0 <= v < 64,
    ensures
        sextet_of(sextet_char(v)) == v,
        sextet_char(v) != '=',
{
}

proof fn sextets_round_trip(a: u8, b: u8, c: u8)
    ensures
        ({
            let q = quad(a, b, c);
            &&& q[2] != '=' && q[3] != '='
            &&& quad_bytes(q[0], q[1], q[2], q[3]) == seq![a, b, c]
            &&& quad_bytes(q[0], q[1], q[2], '=') == seq![a, b]
            &&& quad_bytes(q[0], q[1], '=', '=') == seq![a]
        }),
{
    let w = a as int / 4;
    let x = (a as int % 4) * 16 + b as int / 16;
    let y = (b as int % 16) * 4 + c as int / 64;
    let z = c as int % 64;
    sextet_round_trip(w);
    sextet_round_trip(x);
    sextet_round_trip(y);
    sextet_round_trip(z);
    let q = quad(a, b, c);
    assert(x / 16 == a as int % 4);
    assert(x % 16 == b as int / 16);
    assert(y / 4 == b as int % 16);
    assert(y % 4 == c as int / 64);
    assert(quad_bytes(q[0], q[1], q[2], q[3]) =~= seq![a, b, c]);
    assert(quad_bytes(q[0], q[1], q[2], '=') =~= seq![a, b]);
    assert(quad_bytes(q[0], q[1], '=', '=') =~= seq![a]);
}

proof fn full_groups_round_trip(data: Seq<u8>, s: Seq<char>, k: int)
    requires
        0 <= 3 * k <= data.len(),
        s.len() >= 4 * k,
        forall|i: int| #![trigger s[i]] 0 <= i < 4 * k ==> s[i] == quads(data, k)[i],
    ensures
        decoded(s, k) == data.take(3 * k),
    decreases k,
{
    if k > 0 {
        quads_length(data, k - 1);
        quads_length(data, k);
        assert forall|i: int| #![trigger s[i]] 0 <= i < 4 * (k - 1) implies s[i] == quads(
            data,
            k - 1,
        )[i] by {
            assert(s[i] == quads(data, k)[i]);
        }
        full_groups_round_trip(data, s, k - 1);
        let a = data[3 * k - 3];
        let b = data[3 * k - 2];
        let c = data[3 * k - 1];
        sextets_round_trip(a, b, c);
        let q = quad(a, b, c);
        assert(s[4 * k - 4] == quads(data, k)[4 * k - 4]);
        assert(s[4 * k - 3] == quads(data, k)[4 * k - 3]);
        assert(s[4 * k - 2] == quads(data, k)[4 * k - 2]);
        assert(s[4 * k - 1] == quads(data, k)[4 * k - 1]);
        assert(decoded(s, k) =~= data.take(3 * k));
    } else {
        assert(decoded(s, k) =~= data.take(0));
    }
}

/// The text has four characters for every three bytes, or part of three.
pub proof fn base64_length(data: Seq<u8>)
    ensures
        base64_text(data).len() == 4 * ((data.len() + 2) / 3),
{
    quads_length(data, data.len() as int / 3);
}

/// A character of the Base64 alphabet.
pub open spec fn in_alphabet(c: char) -> bool {
    'A' <= c <= 'Z' || 'a' <= c <= 'z' || '0' <= c <= '9' || c == '+' || c == '/'
}

/// Number of padding characters of the text of `n` bytes.
pub open spec fn padding(n: int) -> int {
    if n % 3 == 1 {
        2
    } else if n % 3 == 2 {
        1
    } else {
        0
    }
}

/// Every character comes from the alphabet but the padding at the end: two `=`
/// where one byte is left over, one where two are, and none else.
pub proof fn base64_alphabet(data: Seq<u8>, i: int)
    requires
        0 <= i < base64_text(data).len(),
    ensures
        ({
            let s = base64_text(data);
            if i < s.len() - padding(data.len() as int) {
                in_alphabet(s[i])
            } else {
                s[i] == '='
            }
        }),
{
    let n = data.len() as int;
    let k = n / 3;
    quads_length(data, k);
    if i < 4 * k {
        quads_in_alphabet(data, k, i);
        assert(base64_text(data)[i] == quads(data, k)[i]);
    } else {
        assert(base64_text(data)[i] == tail(data)[i - 4 * k]);
        if n % 3 == 1 {
            quad_in_alphabet(data[n - 1], 0, 0);
        } else if n % 3 == 2 {
            quad_in_alphabet(data[n - 2], data[n - 1], 0);
        }
    }
}

proof fn sextet_in_alphabet(v: int)
    requires
        0 <= v < 64,
    ensures
        in_alphabet(sextet_char(v)),
{
}

proof fn quad_in_alphabet(a: u8, b: u8, c: u8)
    ensures
        forall|j: int| 0 <= j < 4 ==> in_alphabet(#[trigger] quad(a, b, c)[j]),
{
    sextet_in_alphabet(a as int / 4);
    sextet_in_alphabet((a as int % 4) * 16 + b as int / 16);
    sextet_in_alphabet((b as int % 16) * 4 + c as int / 64);
    sextet_in_alphabet(c as int % 64);
}

proof fn quads_in_alphabet(data: Seq<u8>, k: int, i: int)
    requires
        0 <= i < 4 * k,
    ensures
        quads(data, k).len() == 4 * k,
        in_alphabet(quads(data, k)[i]),
    decreases k,
{
    quads_length(data, k - 1);
    if i < 4 * (k - 1) {
        quads_in_alphabet(data, k - 1, i);
    } else {
        quad_in_alphabet(data[3 * k - 3], data[3 * k - 2], data[3 * k - 1]);
        assert(quads(data, k)[i] == quad(
            data[3 * k - 3],
            data[3 * k - 2],
            data[3 * k - 1],
        )[i - 4 * (k - 1)]);
    }
}

/// Text joins where bytes join at a multiple of three.
pub proof fn base64_joins(a: Seq<u8>, b: Seq<u8>)
    requires
        a.len() % 3 == 0,
    ensures
        base64_text(a + b) == base64_text(a) + base64_text(b),
{
    let ab = a + b;
    let m = a.len() as int / 3;
    let k = b.len() as int / 3;
    assert(ab.len() as int / 3 == m + k);
    quads_join(a, b, k);
    quads_agree(ab, a, m);
    assert(tail(ab) =~= tail(b));
    assert(tail(a) =~= seq![]);
    assert(base64_text(ab) =~= base64_text(a) + base64_text(b));
}

proof fn quads_agree(x: Seq<u8>, y: Seq<u8>, k: int)
    requires
        0 <= 3 * k <= x.len(),
        3 * k <= y.len(),
        forall|i: int| 0 <= i < 3 * k ==> x[i] == y[i],
    ensures
        quads(x, k) == quads(y, k),
    decreases k,
{
    if k > 0 {
        quads_agree(x, y, k - 1);
    }
}

proof fn quads_join(a: Seq<u8>, b: Seq<u8>, k: int)
    requires
        a.len() % 3 == 0,
        0 <= 3 * k <= b.len(),
    ensures
        quads(a + b, a.len() as int / 3 + k) == quads(a + b, a.len() as int / 3) + quads(b, k),
    decreases k,
{
    let m = a.len() as int / 3;
    if k > 0 {
        quads_join(a, b, k - 1);
        let ab = a + b;
        let at = 3 * (m + k);
        assert(ab[at - 3] == b[3 * k - 3]);
        assert(ab[at - 2] == b[3 * k - 2]);
        assert(ab[at - 1] == b[3 * k - 1]);
        assert(m + k - 1 == m + (k - 1));
    }
    assert(quads(a + b, m + k) =~= quads(a + b, m) + quads(b, k));
}

/// What the bytes of an image stand for.
#[derive(Clone, Copy, Debug, PartialEq, Eq, Structural)]
pub enum Layers {
    /// One grey level for each pixel.
    Gray,
    /// Red, green and blue.
    Rgb,
    /// Red, green, blue and opacity.
    Rgba,
}

impl Layers {
    /// Number of bytes for each pixel.
    pub open spec fn count(self) -> int {
        match self {
            Layers::Gray => 1,
            Layers::Rgb => 3,
            Layers::Rgba => 4,
        }
    }
}

/// The error type of the `image` crate.
#[verifier::external_type_specification]
#[verifier::external_body]
pub struct ExImageError(image::ImageError);

/// The PNG file of an image, if it can be encoded.
pub uninterp spec fn png_bytes(data: Seq<u8>, w: int, h: int, layers: int) -> Option<Seq<u8>>;

/// Calls `ImageEncoder::write_image` of `image::codecs::png::PngEncoder` with its
/// default settings. The encoder panics unless there are as many bytes as the
/// size asks for. The file, or that there is none, depends on the image alone;
/// what the file holds is not stated.
#[verifier::external_body]
fn encode_png(data: &[u8], w: u32, h: u32, layers: Layers) -> (r: Result<Vec<u8>, image::ImageError>)
    requires
        data@.len() == w * h * layers.count(),
    ensures
        match r {
            Ok(file) => png_bytes(data@, w as int, h as int, layers.count()) == Some(file@),
            Err(_) => png_bytes(data@, w as int, h as int, layers.count()) is None,
        },
{
    let color = match layers {
        Layers::Gray => image::ExtendedColorType::L8,
        Layers::Rgb => image::ExtendedColorType::Rgb8,
        Layers::Rgba => image::ExtendedColorType::Rgba8,
    };
    let mut file: Vec<u8> = Vec::new();
    image::codecs::png::PngEncoder::new(&mut file).write_image(data, w, h, color)?;
    Ok(file)
}

/// The JPEG file of an RGB image, if it can be encoded.
pub uninterp spec fn jpeg_bytes(data: Seq<u8>, w: int, h: int) -> Option<Seq<u8>>;

/// Calls `ImageEncoder::write_image` of `image::codecs::jpeg::JpegEncoder` with
/// its default quality. The encoder panics unless there are as many bytes as the
/// size asks for. The file, or that there is none, depends on the image alone;
/// what the file holds is not stated.
#[verifier::external_body]
fn encode_jpeg(data: &[u8], w: u32, h: u32) -> (r: Result<Vec<u8>, image::ImageError>)
    requires
        data@.len() == w * h * 3,
    ensures
        match r {
            Ok(file) => jpeg_bytes(data@, w as int, h as int) == Some(file@),
            Err(_) => jpeg_bytes(data@, w as int, h as int) is None,
        },
{
    let mut file: Vec<u8> = Vec::new();
    let encoder = image::codecs::jpeg::JpegEncoder::new(&mut file);
    encoder.write_image(data, w, h, image::ExtendedColorType::Rgb8)?;
    Ok(file)
}

/// Why an image has no data URI.
#[derive(Clone, Copy, Debug, PartialEq, Eq, Structural)]
pub enum EncodeError {
    /// The image cannot be written as a PNG file.
    Png,
    /// The image cannot be written as a JPEG file.
    Jpeg,
}

impl EncodeError {
    /// What went wrong, in words.
    pub fn message(&self) -> (s: String)
        ensures
            s@ == match *self {
                EncodeError::Png => "encoding image to PNG"@,
                EncodeError::Jpeg => "encoding image to JPEG"@,
            },
    {
        match self {
            EncodeError::Png => String::from_str("encoding image to PNG"),
            EncodeError::Jpeg => String::from_str("encoding image to JPEG"),
        }
    }
}

/// The data URI of a PNG file.
pub open spec fn png_uri(file: Seq<u8>) -> Seq<char> {
    "data:image/png;base64,"@ + base64_text(file)
}

/// The data URI of a JPEG file.
pub open spec fn jpeg_uri(file: Seq<u8>) -> Seq<char> {
    "data:image/jpeg;base64,"@ + base64_text(file)
}

/// The data URI of a file, or why there is none.
pub open spec fn uri_or(
    file: Option<Seq<u8>>,
    png: bool,
) -> Result<Seq<char>, EncodeError> {
    match file {
        Some(f) => if png {
            Ok(png_uri(f))
        } else {
            Ok(jpeg_uri(f))
        },
        None => if png {
            Err(EncodeError::Png)
        } else {
            Err(EncodeError::Jpeg)
        },
    }
}

/// The text of a result.
pub open spec fn text_of(r: Result<String, EncodeError>) -> Result<Seq<char>, EncodeError> {
    match r {
        Ok(s) => Ok(s@),
        Err(e) => Err(e),
    }
}

/// The data URI of a PNG file.
pub fn png_data_uri(file: &[u8]) -> (uri: String)
    ensures
        uri@ == png_uri(file@),
{
    let mut uri = String::from_str("data:image/png;base64,");
    let text = b64_encode(file);
    uri.append(text.as_str());
    uri
}

/// The data URI of a JPEG file.
pub fn jpeg_data_uri(file: &[u8]) -> (uri: String)
    ensures
        uri@ == jpeg_uri(file@),
{
    let mut uri = String::from_str("data:image/jpeg;base64,");
    let text = b64_encode(file);
    uri.append(text.as_str());
    uri
}

/// Encodes an image as PNG and gives its data URI.
pub fn img_to_png_uri(data: &[u8], w: u32, h: u32, layers: Layers) -> (r: Result<String, EncodeError>)
    requires
        data@.len() == w * h * layers.count(),
    ensures
        text_of(r) == uri_or(png_bytes(data@, w as int, h as int, layers.count()), true),
{
    match encode_png(data, w, h, layers) {
        Ok(file) => Ok(png_data_uri(file.as_slice())),
        Err(_) => Err(EncodeError::Png),
    }
}

/// Encodes an image as JPEG and gives its data URI.
pub fn img_to_jpeg_uri(data: &[u8], w: u32, h: u32) -> (r: Result<String, EncodeError>)
    requires
        data@.len() == w * h * 3,
    ensures
        text_of(r) == uri_or(jpeg_bytes(data@, w as int, h as int), false),
{
    match encode_jpeg(data, w, h) {
        Ok(file) => Ok(jpeg_data_uri(file.as_slice())),
        Err(_) => Err(EncodeError::Jpeg),
    }
}

/// Encodes a thumbnail as JPEG and gives its data URI.
pub fn image_to_base64_jpeg(data: &[u8], w: u32, h: u32) -> (r: Result<String, EncodeError>)
    requires
        data@.len() == w * h * 3,
    ensures
        text_of(r) == uri_or(jpeg_bytes(data@, w as int, h as int), false),
{
    match encode_jpeg(data, w, h) {
        Ok(file) => {
            let mut uri = String::from_str("data:image/jpeg;base64,");
            let text = if file.len() <= 0x2fff_ffff {
                standard_base64(file.as_slice())
            } else {
                b64_encode(file.as_slice())
            };
            uri.append(text.as_str());
            Ok(uri)
        },
        Err(_) => Err(EncodeError::Jpeg),
    }
}

/// The bytes of pixels, channel by channel.
pub open spec fn flat(pixels: Seq<[u8; 3]>) -> Seq<u8> {
    Seq::new(3 * pixels.len(), |i: int| pixels[i / 3][i % 3])
}

/// The bytes of pixels, channel by channel.
pub fn flatten(pixels: &[[u8; 3]]) -> (out: Vec<u8>)
    ensures
        out@ == flat(pixels@),
{
    let mut out: Vec<u8> = Vec::new();
    let mut i: usize = 0;
    while i < pixels.len()
        invariant
            i <= pixels@.len(),
            out@.len() == 3 * i,
            forall|k: int| #![trigger out@[k]] 0 <= k < 3 * i ==> out@[k] == flat(pixels@)[k],
        decreases pixels@.len() - i,
    {
        let p = pixels[i];
        out.push(p[0]);
        out.push(p[1]);
        out.push(p[2]);
        i += 1;
    }
    assert(out@ =~= flat(pixels@));
    out
}

/// The bytes of pixels with opacity, channel by channel.
pub open spec fn flat_rgba(pixels: Seq<[u8; 4]>) -> Seq<u8> {
    Seq::new(4 * pixels.len(), |i: int| pixels[i / 4][i % 4])
}

/// Channels stand one after the other, pixel by pixel.
pub proof fn flat_lists_channels(pixels: Seq<[u8; 3]>, i: int, c: int)
    requires
        0 <= i < pixels.len(),
        0 <= c < 3,
    ensures
        flat(pixels).len() == 3 * pixels.len(),
        flat(pixels)[3 * i + c] == pixels[i][c],
{
    assert((3 * i + c) / 3 == i && (3 * i + c) % 3 == c);
}

/// Channels and opacity stand one after the other, pixel by pixel.
pub proof fn flat_rgba_lists_channels(pixels: Seq<[u8; 4]>, i: int, c: int)
    requires
        0 <= i < pixels.len(),
        0 <= c < 4,
    ensures
        flat_rgba(pixels).len() == 4 * pixels.len(),
        flat_rgba(pixels)[4 * i + c] == pixels[i][c],
{
    assert((4 * i + c) / 4 == i && (4 * i + c) % 4 == c);
}

/// The bytes of pixels with opacity, channel by channel.
pub fn flatten_rgba(pixels: &[[u8; 4]]) -> (out: Vec<u8>)
    ensures
        out@ == flat_rgba(pixels@),
{
    let mut out: Vec<u8> = Vec::new();
    let mut i: usize = 0;
    while i < pixels.len()
        invariant
            i <= pixels@.len(),
            out@.len() == 4 * i,
            forall|k: int| #![trigger out@[k]] 0 <= k < 4 * i ==> out@[k] == flat_rgba(pixels@)[k],
        decreases pixels@.len() - i,
    {
        let p = pixels[i];
        out.push(p[0]);
        out.push(p[1]);
        out.push(p[2]);
        out.push(p[3]);
        i += 1;
    }
    assert(out@ =~= flat_rgba(pixels@));
    out
}

/// Calls `Engine::encode` of the `base64` crate's `general_purpose::STANDARD`:
/// the standard alphabet, padded with `=`. It panics where the text cannot be
/// held, so the bytes are kept to less than a gigabyte.
#[verifier::external_body]
fn standard_base64(data: &[u8]) -> (out: String)
    requires
        data@.len() <= 0x2fff_ffff,
    ensures
        out@ == base64_text(data@),
{
    base64::engine::general_purpose::STANDARD.encode(data)
}

} // verus!
