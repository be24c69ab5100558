//! Compressed and uncompressed texture formats in symbolic form, both
//! specific and generic.

use vstd::prelude::*;

verus! {

/// The channels that a texture holds.
#[derive(Debug, Clone, Copy, PartialEq, Eq, Structural)]
pub enum Channels {
    /// Red alone.
    R,
    /// Red and green.
    Rg,
    /// Red, green and blue.
    Rgb,
    /// Red, green, blue and alpha.
    Rgba,
}

/// The type in which one channel of a pixel is stored.
#[derive(Debug, Clone, Copy, PartialEq, Eq, Structural)]
pub enum DataType {
    /// No particular type.
    Unspecified,
    /// An unsigned 8-bit integer.
    UnsignedByte,
    /// A signed 8-bit integer.
    Byte,
    /// An unsigned 16-bit integer.
    UnsignedShort,
    /// A signed 16-bit integer.
    Short,
    /// An unsigned 32-bit integer.
    UnsignedInt,
    /// A signed 32-bit integer.
    Int,
    /// A floating-point number.
    Float,
}

/// The variants of red-green texture compression.
#[derive(Debug, Clone, Copy, PartialEq, Eq, Structural)]
pub enum Rgtc {
    /// One unsigned channel.
    Red,
    /// One signed channel.
    RedSigned,
    /// Two unsigned channels.
    Rg,
    /// Two signed channels.
    RgSigned,
}

/// The variants of BPTC texture compression.
#[derive(Debug, Clone, Copy, PartialEq, Eq, Structural)]
pub enum Bptc {
    /// Four normalized channels.
    Rgba,
    /// Three signed floating-point channels.
    RgbFloatSigned,
    /// Three unsigned floating-point channels.
    RgbFloatUnsigned,
}

/// The variants of S3 texture compression.
#[derive(Debug, Clone, Copy, PartialEq, Eq, Structural)]
pub enum S3tc {
    /// DXT1 without alpha.
    Rgb1,
    /// DXT1 with one bit of alpha.
    Rgba1,
    /// DXT3.
    Rgba3,
    /// DXT5.
    Rgba5,
}

/// The block sizes of ASTC texture compression.
#[derive(Debug, Clone, Copy, PartialEq, Eq, Structural)]
pub enum BlockSize {
    B4x4,
    B5x4,
    B5x5,
    B6x5,
    B6x6,
    B8x5,
    B8x6,
    B8x8,
    B10x5,
    B10x6,
    B10x8,
    B10x10,
    B12x10,
    B12x12,
}

/// DXT versions to use with the S3TC algorithm.
#[derive(Debug, Clone, Copy, PartialEq, Eq, Structural, PartialOrd, Hash)]
pub enum DXTVersion {
    /// DXT1 variant
    DXT1,
    /// DXT3 variant
    DXT3,
    /// DXT5 variant
    DXT5,
}

impl Default for DXTVersion {
    fn default() -> (version: DXTVersion)
        ensures
            version == DXTVersion::DXT5,
    {
        DXTVersion::DXT5
    }
}

/// Why a format cannot be made.
#[derive(Debug, Clone, Copy, PartialEq, Eq, Structural)]
pub enum ProtocolError {
    /// The data type given does not go with the one that the format needs:
    /// the type given, then the type needed.
    MismatchedTypes(DataType, DataType),
    /// The compression does not have the format asked for.
    InvalidFormat,
}

/// Uncompressed image format
#[derive(Debug, Clone, Copy, PartialEq, Eq, Structural)]
pub struct Uncompressed {
    /// Channels for uncompressed format
    pub channels: Channels,
    /// Data type to store pixel data
    pub data_type: DataType,
}

impl Uncompressed {
    /// `Uncompressed` constructor function
    pub fn new(channels: Channels, data_type: DataType) -> (format: Uncompressed)
        ensures
            format == (Uncompressed { channels, data_type }),
    {
        Uncompressed { channels: channels, data_type: data_type }
    }
}

impl Channels {
    /// The number of channels, from 1 for `R` to 4 for `Rgba`.
    pub open spec fn count(self) -> nat {
        match self {
            Channels::R => 1,
            Channels::Rg => 2,
            Channels::Rgb => 3,
            Channels::Rgba => 4,
        }
    }

    /// Gets the number of channels
    pub fn num_channels(&self) -> (count: usize)
        ensures
            count == self.count(),
    {
        match *self {
            Channels::R => 1,
            Channels::Rg => 2,
            Channels::Rgb => 3,
            Channels::Rgba => 4,
        }
    }
}

/// Represents a non-sRGB compression format in symbolic form
#[derive(Debug, Clone, Copy, PartialEq, Eq, Structural)]
pub enum Which {
    /// Uncompressed raw pixel data
    Raw(Uncompressed),
    /// Red-green texture compression
    Rgtc(Rgtc),
    /// BPTC texture compression
    Bptc(Bptc),
    /// S3 texture compression
    S3tc(S3tc),
    /// ASTC texture compression
    Astc(BlockSize),
}

impl Which {
    /// The channels that the format represents.
    pub open spec fn channels_of(self) -> Channels {
        match self {
            Which::Raw(uncompressed) => uncompressed.channels,
            Which::Rgtc(rgtc) => if rgtc == Rgtc::Red || rgtc == Rgtc::RedSigned {
                Channels::R
            } else {
                Channels::Rg
            },
            Which::Bptc(bptc) => if bptc == Bptc::Rgba {
                Channels::Rgba
            } else {
                Channels::Rgb
            },
            Which::S3tc(s3tc) => if s3tc == S3tc::Rgb1 {
                Channels::Rgb
            } else {
                Channels::Rgba
            },
            Which::Astc(_) => Channels::Rgba,
        }
    }

    /// Whether the format stores signed values.
    pub open spec fn is_signed(self) -> bool {
        match self {
            Which::Raw(uncompressed) => uncompressed.data_type == DataType::Byte || uncompressed.data_type
                == DataType::Short || uncompressed.data_type == DataType::Int || uncompressed.data_type
                == DataType::Float,
            Which::Rgtc(rgtc) => rgtc == Rgtc::RedSigned || rgtc == Rgtc::RgSigned,
            Which::Bptc(bptc) => bptc == Bptc::RgbFloatSigned,
            Which::S3tc(_) => false,
            Which::Astc(_) => false,
        }
    }

    /// Whether the format stores floating-point values.
    pub open spec fn is_float(self) -> bool {
        match self {
            Which::Raw(uncompressed) => uncompressed.data_type == DataType::Float,
            Which::Bptc(bptc) => bptc == Bptc::RgbFloatSigned || bptc == Bptc::RgbFloatUnsigned,
            Which::Rgtc(_) => false,
            Which::S3tc(_) => false,
            Which::Astc(_) => false,
        }
    }

    /// Get what channel components are represented in this specific format
    pub fn channels(&self) -> (channels: Channels)
        ensures
            channels == self.channels_of(),
    {
        match *self {
            Which::Raw(uncompressed) => uncompressed.channels,
            Which::Rgtc(rgtc) => {
                match rgtc {
                    Rgtc::Red | Rgtc::RedSigned => Channels::R,
                    Rgtc::Rg | Rgtc::RgSigned => Channels::Rg,
                }
            },
            Which::Bptc(bptc) => {
                match bptc {
                    Bptc::Rgba => Channels::Rgba,
                    _ => Channels::Rgb,
                }
            },
            Which::S3tc(s3tc) => {
                match s3tc {
                    S3tc::Rgb1 => Channels::Rgb,
                    _ => Channels::Rgba,
                }
            },
            Which::Astc(_) => Channels::Rgba,
        }
    }

    /// Returns true if the stored specific format is signed
    pub fn signed(&self) -> (signed: bool)
        ensures
            signed == self.is_signed(),
    {
        match *self {
            Which::Rgtc(rgtc) => {
                match rgtc {
                    Rgtc::RedSigned | Rgtc::RgSigned => true,
                    _ => false,
                }
            },
            Which::Bptc(bptc) => bptc == Bptc::RgbFloatSigned,
            Which::Raw(uncompressed) => {
                match uncompressed.data_type {
                    DataType::Byte | DataType::Short | DataType::Int | DataType::Float => true,
                    _ => false,
                }
            },
            _ => false,
        }
    }

    /// Returns true if the stored specific format is floating point
    pub fn float(&self) -> (float: bool)
        ensures
            float == self.is_float(),
    {
        match *self {
            Which::Bptc(bptc) => {
                match bptc {
                    Bptc::RgbFloatSigned | Bptc::RgbFloatUnsigned => true,
                    _ => false,
                }
            },
            Which::Raw(uncompressed) => uncompressed.data_type == DataType::Float,
            _ => false,
        }
    }

    /// Returns the most appropriate data type for this format: that of an
    /// uncompressed format, and `Unspecified` for a compressed one.
    pub fn data_type(&self) -> (data_type: DataType)
        ensures
            data_type == match *self {
                Which::Raw(uncompressed) => uncompressed.data_type,
                _ => DataType::Unspecified,
            },
    {
        match *self {
            Which::Raw(uncompressed) => uncompressed.data_type,
            _ => DataType::Unspecified,
        }
    }
}

/// Structure to store properties until it needs to be converted into a
/// `SpecificFormat`. Can be used to build up formats.
#[derive(Debug, Clone, Copy, PartialEq, Eq, Structural)]
pub struct GenericFormat {
    /// Channels to be used in this format
    pub channels: Channels,
    /// sRGB color space for format
    pub srgb: bool,
    /// Signed format
    pub signed: bool,
    /// Floating point format
    pub float: bool,
}

impl Default for GenericFormat {
    fn default() -> (format: GenericFormat)
        ensures
            format == (GenericFormat { channels: Channels::Rgba, srgb: false, signed: false, float: false }),
    {
        GenericFormat { channels: Channels::Rgba, srgb: false, signed: false, float: false }
    }
}

impl GenericFormat {
    /// Constructor for `GenericFormat`
    pub fn new(channels: Channels, srgb: bool, signed: bool, float: bool) -> (format: GenericFormat)
        ensures
            format == (GenericFormat { channels, srgb, signed, float }),
    {
        GenericFormat { channels: channels, srgb: srgb, signed: signed, float: float }
    }

    /// Counts the channels used in the format
    pub fn num_channels(&self) -> (count: usize)
        ensures
            count == self.channels.count(),
    {
        self.channels.num_channels()
    }

    /// Create a new uncompressed `SpecificFormat` from `self`.
    ///
    /// Fails with `MismatchedTypes(data_type, DataType::Float)` if
    /// `self.float` is `true` and `data_type` is not a floating point type.
    pub fn none(&self, data_type: DataType) -> (result: Result<SpecificFormat, ProtocolError>)
        ensures
            result == if self.float && data_type != DataType::Float {
                Err::<SpecificFormat, ProtocolError>(ProtocolError::MismatchedTypes(data_type, DataType::Float))
            } else {
                Ok::<SpecificFormat, ProtocolError>(
                    SpecificFormat {
                        which: Which::Raw(Uncompressed { channels: self.channels, data_type }),
                        srgb: self.srgb,
                    },
                )
            },
    {
        if self.float && data_type != DataType::Float {
            return Err(ProtocolError::MismatchedTypes(data_type, DataType::Float));
        }
        Ok(SpecificFormat { which: Which::Raw(Uncompressed::new(self.channels, data_type)), srgb: self.srgb })
    }

    /// Create a new RGTC `SpecificFormat` from the properties provided in
    /// `self`. The compression has one or two channels, signed or not, and no
    /// sRGB; for three or four channels it fails with `InvalidFormat`.
    pub fn rgtc(&self) -> (result: Result<SpecificFormat, ProtocolError>)
        ensures
            result == match self.channels {
                Channels::R => Ok::<SpecificFormat, ProtocolError>(
                    SpecificFormat {
                        which: Which::Rgtc(
                            if self.signed {
                                Rgtc::RedSigned
                            } else {
                                Rgtc::Red
                            },
                        ),
                        srgb: false,
                    },
                ),
                Channels::Rg => Ok::<SpecificFormat, ProtocolError>(
                    SpecificFormat {
                        which: Which::Rgtc(
                            if self.signed {
                                Rgtc::RgSigned
                            } else {
                                Rgtc::Rg
                            },
                        ),
                        srgb: false,
                    },
                ),
                _ => Err::<SpecificFormat, ProtocolError>(ProtocolError::InvalidFormat),
            },
    {
        let rgtc = match self.channels {
            Channels::R => {
                if self.signed {
                    Rgtc::RedSigned
                } else {
                    Rgtc::Red
                }
            },
            Channels::Rg => {
                if self.signed {
                    Rgtc::RgSigned
                } else {
                    Rgtc::Rg
                }
            },
            _ => {
                return Err(ProtocolError::InvalidFormat);
            },
        };
        Ok(
            SpecificFormat {
                which: Which::Rgtc(rgtc),
                // this compression method doesn't support sRGB
                srgb: false,
            },
        )
    }

    /// Create a new S3TC `SpecificFormat` from the properties provided in
    /// `self`. DXT1 keeps alpha only where the format has four channels.
    pub fn s3tc(&self, version: DXTVersion) -> (format: SpecificFormat)
        ensures
            format.srgb == self.srgb,
            format.which == Which::S3tc(
                match version {
                    DXTVersion::DXT1 => if self.channels == Channels::Rgba {
                        S3tc::Rgba1
                    } else {
                        S3tc::Rgb1
                    },
                    DXTVersion::DXT3 => S3tc::Rgba3,
                    DXTVersion::DXT5 => S3tc::Rgba5,
                },
            ),
    {
        let s3tc = match version {
            DXTVersion::DXT1 => {
                if self.channels == Channels::Rgba {
                    S3tc::Rgba1
                } else {
                    S3tc::Rgb1
                }
            },
            DXTVersion::DXT3 => S3tc::Rgba3,
            DXTVersion::DXT5 => S3tc::Rgba5,
        };
        SpecificFormat { which: Which::S3tc(s3tc), srgb: self.srgb }
    }

    /// Create a new BPTC `SpecificFormat` from the properties provided in
    /// `self`: a floating-point variant where the format is floating point.
    pub fn bptc(&self) -> (format: SpecificFormat)
        ensures
            format.srgb == self.srgb,
            format.which == Which::Bptc(
                if !self.float {
                    Bptc::Rgba
                } else if self.signed {
                    Bptc::RgbFloatSigned
                } else {
                    Bptc::RgbFloatUnsigned
                },
            ),
    {
        let bptc = if self.float {
            if self.signed {
                Bptc::RgbFloatSigned
            } else {
                Bptc::RgbFloatUnsigned
            }
        } else {
            Bptc::Rgba
        };
        SpecificFormat { which: Which::Bptc(bptc), srgb: self.srgb }
    }

    /// Create a new ASTC `SpecificFormat` from the properties provided in `self`
    pub fn astc(&self, blocksize: BlockSize) -> (format: SpecificFormat)
        ensures
            format == (SpecificFormat { which: Which::Astc(blocksize), srgb: self.srgb }),
    {
        SpecificFormat { which: Which::Astc(blocksize), srgb: self.srgb }
    }
}

/// Represents a specific compression format in symbolic form, with no
/// graphics API values associated with it.
#[derive(Debug, Clone, Copy, PartialEq, Eq, Structural)]
pub struct SpecificFormat {
    /// Which format is used
    pub which: Which,
    /// sRGB color space in the format
    pub srgb: bool,
}

impl SpecificFormat {
    /// The generic properties of the format.
    pub open spec fn generic(self) -> GenericFormat {
        GenericFormat {
            channels: self.which.channels_of(),
            srgb: self.srgb,
            signed: self.which.is_signed(),
            float: self.which.is_float(),
        }
    }

    /// Consume self and convert specific formats back into generic ones
    pub fn into_generic(self) -> (format: GenericFormat)
        ensures
            format == self.generic(),
    {
        GenericFormat {
            channels: self.which.channels(),
            srgb: self.srgb,
            signed: self.which.signed(),
            float: self.which.float(),
        }
    }

    /// Convert specific formats into generic properties
    pub fn to_generic(&self) -> (format: GenericFormat)
        ensures
            format == self.generic(),
    {
        self.into_generic()
    }

    /// Check if this is a compressed format
    pub fn is_compressed(&self) -> (compressed: bool)
        ensures
            compressed == !(self.which is Raw),
    {
        match self.which {
            Which::Raw(_) => false,
            _ => true,
        }
    }
}

} // verus!
