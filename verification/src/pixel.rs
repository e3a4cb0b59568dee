//! Pixels, channels, and the reading of a byte buffer as a row-major sequence
//! of RGB pixels.

use vstd::prelude::*;

verus! {

/// What can be wrong with a configuration.
#[derive(Clone, Copy, Debug, PartialEq, Eq, Structural)]
pub enum ConfigError {
    /// A channel was asked for by an index that no channel has.
    ChannelOutOfRange { index: usize },
}

/// One colour component of a pixel.
#[derive(Clone, Copy, Debug, PartialEq, Eq, Structural)]
pub enum Channel {
    Red,
    Green,
    Blue,
}

impl Channel {
    /// The position of the channel inside a pixel's three bytes.
    pub open spec fn spec_index(&self) -> usize {
        match *self {
            Channel::Red => 0,
            Channel::Green => 1,
            Channel::Blue => 2,
        }
    }

    /// The position of the channel inside a pixel's three bytes.
    #[verifier::when_used_as_spec(spec_index)]
    pub fn index(&self) -> (i: usize)
        ensures
            i == self.spec_index(),
            i < 3,
    {
        match *self {
            Channel::Red => 0,
            Channel::Green => 1,
            Channel::Blue => 2,
        }
    }

    /// The channel at position `index`. An index past the three channels is
    /// refused as a configuration error.
    pub fn from_index(index: usize) -> (channel: Result<Channel, ConfigError>)
        ensures
            index < 3 <==> channel is Ok,
            channel matches Ok(c) ==> c.spec_index() == index,
            channel matches Err(e) ==> e == (ConfigError::ChannelOutOfRange { index }),
    {
        if index == 0 {
            Ok(Channel::Red)
        } else if index == 1 {
            Ok(Channel::Green)
        } else if index == 2 {
            Ok(Channel::Blue)
        } else {
            Err(ConfigError::ChannelOutOfRange { index })
        }
    }
}

/// A pixel: its red, green and blue bytes.
#[derive(Clone, Copy, Debug, PartialEq, Eq, Structural)]
pub struct Pixel {
    pub r: u8,
    pub g: u8,
    pub b: u8,
}

impl Pixel {
    /// The value of one channel of the pixel.
    pub open spec fn spec_channel(&self, channel: Channel) -> u8 {
        match channel {
            Channel::Red => self.r,
            Channel::Green => self.g,
            Channel::Blue => self.b,
        }
    }

    /// The pixel with the given red, green and blue values.
    pub fn new(r: u8, g: u8, b: u8) -> (p: Pixel)
        ensures
            p == (Pixel { r, g, b }),
    {
        Pixel { r, g, b }
    }

    /// The value of one channel of the pixel.
    #[verifier::when_used_as_spec(spec_channel)]
    pub fn channel(&self, channel: Channel) -> (v: u8)
        ensures
            v == self.spec_channel(channel),
    {
        match channel {
            Channel::Red => self.r,
            Channel::Green => self.g,
            Channel::Blue => self.b,
        }
    }
}

/// The layout of a pixel in a byte buffer: three bytes, or four with a
/// constant alpha byte of 255 at the end.
#[derive(Clone, Copy, Debug, PartialEq, Eq, Structural)]
pub enum PixelFormat {
    Rgb,
    Rgba,
}

impl PixelFormat {
    /// The number of bytes that one pixel takes.
    pub open spec fn spec_stride(&self) -> usize {
        match *self {
            PixelFormat::Rgb => 3,
            PixelFormat::Rgba => 4,
        }
    }

    /// The number of bytes that one pixel takes.
    #[verifier::when_used_as_spec(spec_stride)]
    pub fn stride(&self) -> (n: usize)
        ensures
            n == self.spec_stride(),
    {
        match *self {
            PixelFormat::Rgb => 3,
            PixelFormat::Rgba => 4,
        }
    }
}

/// Byte `c` of a pixel as it is written out: red, green, blue, then alpha,
/// which is always 255.
pub open spec fn byte_of(p: Pixel, c: int) -> u8 {
    if c == 0 {
        p.r
    } else if c == 1 {
        p.g
    } else if c == 2 {
        p.b
    } else {
        255u8
    }
}

/// The bytes of a sequence of pixels in the given layout, pixel after pixel.
pub open spec fn pack(pixels: Seq<Pixel>, format: PixelFormat) -> Seq<u8> {
    Seq::new(
        (pixels.len() * format.spec_stride()) as nat,
        |k: int|
            byte_of(
                pixels[k / (format.spec_stride() as int)],
                k % (format.spec_stride() as int),
            ),
    )
}

/// The pixels that a byte buffer holds in the given layout, in order. Bytes
/// after the last whole pixel are not part of any pixel, and alpha bytes are
/// passed over.
pub open spec fn unpack(bytes: Seq<u8>, format: PixelFormat) -> Seq<Pixel> {
    Seq::new(
        (bytes.len() as int / format.spec_stride() as int) as nat,
        |i: int|
            Pixel {
                r: bytes[format.spec_stride() * i],
                g: bytes[format.spec_stride() * i + 1],
                b: bytes[format.spec_stride() * i + 2],
            },
    )
}

/// The pixels that an RGB byte buffer holds, in order.
pub open spec fn pixels_of(bytes: Seq<u8>) -> Seq<Pixel> {
    unpack(bytes, PixelFormat::Rgb)
}

/// Unpacking what was packed gives the pixels back.
pub proof fn lemma_unpack_pack(pixels: Seq<Pixel>, format: PixelFormat)
    ensures
        unpack(pack(pixels, format), format) == pixels,
        pack(pixels, format).len() == pixels.len() * format.spec_stride(),
{
    match format {
        PixelFormat::Rgb => {
            assert(unpack(pack(pixels, format), format) =~= pixels);
        },
        PixelFormat::Rgba => {
            assert(unpack(pack(pixels, format), format) =~= pixels);
        },
    }
}

/// Packing one sequence after another is packing the two in one.
pub proof fn lemma_pack_concat(a: Seq<Pixel>, b: Seq<Pixel>, format: PixelFormat)
    ensures
        pack(a + b, format) == pack(a, format) + pack(b, format),
{
    match format {
        PixelFormat::Rgb => {
            assert(pack(a + b, format) =~= pack(a, format) + pack(b, format));
        },
        PixelFormat::Rgba => {
            assert(pack(a + b, format) =~= pack(a, format) + pack(b, format));
        },
    }
}

/// Reads pixel `i` of an RGB byte buffer.
pub fn read_pixel(bytes: &[u8], i: usize) -> (p: Pixel)
    requires
        i < bytes@.len() / 3,
    ensures
        p == pixels_of(bytes@)[i as int],
{
    assert(3 * i + 2 < bytes.len());
    Pixel { r: bytes[3 * i], g: bytes[3 * i + 1], b: bytes[3 * i + 2] }
}

/// Appends the bytes of one pixel to `out`, with the alpha byte where the
/// layout has one.
pub fn append_pixel(out: &mut Vec<u8>, p: Pixel, format: PixelFormat)
    ensures
        final(out)@ == old(out)@ + pack(seq![p], format),
{
    out.push(p.r);
    out.push(p.g);
    out.push(p.b);
    match format {
        PixelFormat::Rgb => {
            assert(out@ =~= old(out)@ + pack(seq![p], format));
        },
        PixelFormat::Rgba => {
            out.push(255);
            assert(out@ =~= old(out)@ + pack(seq![p], format));
        },
    }
}

/// Appends the bytes of `pixels` to `out`, pixel after pixel.
pub fn append_pixels(out: &mut Vec<u8>, pixels: &Vec<Pixel>, format: PixelFormat)
    ensures
        final(out)@ == old(out)@ + pack(pixels@, format),
{
    let mut i: usize = 0;
    assert(out@ =~= old(out)@ + pack(pixels@.take(0), format));
    while i < pixels.len()
        invariant
            i <= pixels.len(),
            out@ == old(out)@ + pack(pixels@.take(i as int), format),
        decreases pixels.len() - i,
    {
        append_pixel(out, pixels[i], format);
        proof {
            lemma_pack_concat(pixels@.take(i as int), seq![pixels@[i as int]], format);
            assert(pixels@.take(i as int) + seq![pixels@[i as int]] == pixels@.take(i + 1));
            assert(out@ =~= old(out)@ + pack(pixels@.take(i + 1), format));
        }
        i += 1;
    }
    assert(pixels@.take(i as int) == pixels@);
}

} // verus!
