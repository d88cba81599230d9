//! Images as the pipeline sees them: a size, a pixel layout and the bytes.

use vstd::prelude::*;

verus! {

/// The type of one channel of one pixel.
#[derive(Clone, Copy, Debug, PartialEq, Eq, Structural)]
pub enum PixelDepth {
    Unsigned8,
    Signed8,
    Unsigned16,
    Signed16,
    Signed32,
    Real32,
    Real64,
}

impl PixelDepth {
    /// The number of bytes that one channel of one pixel takes.
    pub open spec fn bytes_spec(self) -> nat {
        match self {
            PixelDepth::Unsigned8 | PixelDepth::Signed8 => 1,
            PixelDepth::Unsigned16 | PixelDepth::Signed16 => 2,
            PixelDepth::Signed32 | PixelDepth::Real32 => 4,
            PixelDepth::Real64 => 8,
        }
    }

    /// The number of bytes that one channel of one pixel takes.
    pub fn bytes(self) -> (r: u32)
        ensures
            r == self.bytes_spec(),
    {
        match self {
            PixelDepth::Unsigned8 | PixelDepth::Signed8 => 1,
            PixelDepth::Unsigned16 | PixelDepth::Signed16 => 2,
            PixelDepth::Signed32 | PixelDepth::Real32 => 4,
            PixelDepth::Real64 => 8,
        }
    }
}

/// What an image is: its size, its pixel layout and its bytes, row by row.
pub struct ImageView {
    pub width: nat,
    pub height: nat,
    pub channels: nat,
    pub depth: PixelDepth,
    pub data: Seq<u8>,
}

impl ImageView {
    /// The number of bytes that an image of this size and layout holds.
    pub open spec fn byte_len(self) -> nat {
        self.width * self.height * self.channels * self.depth.bytes_spec()
    }

    /// Whether the bytes are as many as the size and the layout ask for.
    pub open spec fn consistent(self) -> bool {
        self.data.len() == self.byte_len()
    }
}

/// A pixel buffer. Its bytes are always as many as its size and layout ask
/// for.
pub struct Image {
    width: u32,
    height: u32,
    channels: u32,
    depth: PixelDepth,
    data: Vec<u8>,
}

impl View for Image {
    type V = ImageView;

    closed spec fn view(&self) -> ImageView {
        ImageView {
            width: self.width as nat,
            height: self.height as nat,
            channels: self.channels as nat,
            depth: self.depth,
            data: self.data@,
        }
    }
}

impl Image {
    #[verifier::type_invariant]
    spec fn well_formed(self) -> bool {
        self@.consistent()
    }

    /// The image of the given size and layout over `data`, where `data` has
    /// the length that they ask for.
    pub fn new(width: u32, height: u32, channels: u32, depth: PixelDepth, data: Vec<u8>) -> (r: Option<
        Image,
    >)
        ensures
            r is Some <==> (ImageView {
                width: width as nat,
                height: height as nat,
                channels: channels as nat,
                depth,
                data: data@,
            }).consistent(),
            r matches Some(image) ==> image@ == (ImageView {
                width: width as nat,
                height: height as nat,
                channels: channels as nat,
                depth,
                data: data@,
            }),
    {
        let size = depth.bytes();
        assert(width * height <= 0xffff_ffff * 0xffff_ffff && width * height * channels
            <= 0xffff_ffff * 0xffff_ffff * 0xffff_ffff && width * height * channels * size
            <= 0xffff_ffff * 0xffff_ffff * 0xffff_ffff * 8) by (nonlinear_arith)
            requires
                width <= 0xffff_ffff,
                height <= 0xffff_ffff,
                channels <= 0xffff_ffff,
                size <= 8,
        ;
        let wanted: u128 = width as u128 * height as u128 * channels as u128 * size as u128;
        if data.len() as u128 == wanted {
            Some(Image { width, height, channels, depth, data })
        } else {
            None
        }
    }

    /// The number of pixels in a row.
    pub fn width(&self) -> (r: u32)
        ensures
            r == self@.width,
    {
        self.width
    }

    /// The number of rows.
    pub fn height(&self) -> (r: u32)
        ensures
            r == self@.height,
    {
        self.height
    }

    /// The number of channels of a pixel.
    pub fn channels(&self) -> (r: u32)
        ensures
            r == self@.channels,
    {
        self.channels
    }

    /// The type of one channel of one pixel.
    pub fn depth(&self) -> (r: PixelDepth)
        ensures
            r == self@.depth,
    {
        self.depth
    }

    /// The bytes of the image, row by row.
    pub fn data(&self) -> (r: &Vec<u8>)
        ensures
            r@ == self@.data,
            self@.consistent(),
    {
        proof {
            use_type_invariant(self);
        }
        &self.data
    }

    /// The bytes of the image, the image given up.
    pub fn into_data(self) -> (r: Vec<u8>)
        ensures
            r@ == self@.data,
            self@.consistent(),
    {
        proof {
            use_type_invariant(&self);
        }
        self.data
    }
}

} // verus!
