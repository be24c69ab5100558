use combustion::format::{
    BlockSize, Bptc, Channels, DXTVersion, DataType, GenericFormat, ProtocolError, Rgtc, S3tc, SpecificFormat,
    Uncompressed, Which,
};
use combustion::material::{MaterialShader, RenderMethod};
use combustion::scene::{DefaultName, Material};

#[test]
fn channel_counts() {
    assert_eq!(Channels::R.num_channels(), 1);
    assert_eq!(Channels::Rg.num_channels(), 2);
    assert_eq!(Channels::Rgb.num_channels(), 3);
    assert_eq!(Channels::Rgba.num_channels(), 4);
    assert_eq!(GenericFormat::new(Channels::Rgb, false, false, false).num_channels(), 3);
}

#[test]
fn defaults() {
    assert_eq!(DXTVersion::default(), DXTVersion::DXT5);
    assert_eq!(
        GenericFormat::default(),
        GenericFormat { channels: Channels::Rgba, srgb: false, signed: false, float: false }
    );
    assert!(DXTVersion::DXT1 < DXTVersion::DXT3);
    assert!(DXTVersion::DXT3 < DXTVersion::DXT5);
}

#[test]
fn uncompressed_format_keeps_channels_and_type() {
    let generic = GenericFormat::new(Channels::Rgb, true, false, false);
    let specific = generic.none(DataType::UnsignedByte).unwrap();
    assert_eq!(
        specific,
        SpecificFormat { which: Which::Raw(Uncompressed::new(Channels::Rgb, DataType::UnsignedByte)), srgb: true }
    );
    assert!(!specific.is_compressed());
    assert_eq!(specific.which.data_type(), DataType::UnsignedByte);
    assert_eq!(specific.to_generic(), generic);
}

#[test]
fn float_format_needs_a_float_type() {
    let generic = GenericFormat::new(Channels::Rgba, false, true, true);
    assert_eq!(generic.none(DataType::Int), Err(ProtocolError::MismatchedTypes(DataType::Int, DataType::Float)));
    let specific = generic.none(DataType::Float).unwrap();
    assert!(specific.which.float());
    assert!(specific.which.signed());
    assert_eq!(specific.into_generic(), generic);
}

#[test]
fn signedness_of_uncompressed_types() {
    let signed = [DataType::Byte, DataType::Short, DataType::Int, DataType::Float];
    let unsigned = [DataType::Unspecified, DataType::UnsignedByte, DataType::UnsignedShort, DataType::UnsignedInt];
    for data_type in signed {
        assert!(Which::Raw(Uncompressed::new(Channels::R, data_type)).signed());
    }
    for data_type in unsigned {
        assert!(!Which::Raw(Uncompressed::new(Channels::R, data_type)).signed());
        assert!(!Which::Raw(Uncompressed::new(Channels::R, data_type)).float());
    }
}

#[test]
fn rgtc_has_one_or_two_channels() {
    let make = |channels, signed| GenericFormat::new(channels, true, signed, false).rgtc();
    assert_eq!(make(Channels::R, false), Ok(SpecificFormat { which: Which::Rgtc(Rgtc::Red), srgb: false }));
    assert_eq!(make(Channels::R, true), Ok(SpecificFormat { which: Which::Rgtc(Rgtc::RedSigned), srgb: false }));
    assert_eq!(make(Channels::Rg, false), Ok(SpecificFormat { which: Which::Rgtc(Rgtc::Rg), srgb: false }));
    assert_eq!(make(Channels::Rg, true), Ok(SpecificFormat { which: Which::Rgtc(Rgtc::RgSigned), srgb: false }));
    assert_eq!(make(Channels::Rgb, false), Err(ProtocolError::InvalidFormat));
    assert_eq!(make(Channels::Rgba, true), Err(ProtocolError::InvalidFormat));

    assert_eq!(Which::Rgtc(Rgtc::RedSigned).channels(), Channels::R);
    assert_eq!(Which::Rgtc(Rgtc::RgSigned).channels(), Channels::Rg);
    assert!(Which::Rgtc(Rgtc::RgSigned).signed());
    assert!(!Which::Rgtc(Rgtc::Rg).signed());
    assert!(!Which::Rgtc(Rgtc::RedSigned).float());
}

#[test]
fn s3tc_follows_the_version() {
    let rgb = GenericFormat::new(Channels::Rgb, true, false, false);
    let rgba = GenericFormat::new(Channels::Rgba, false, false, false);
    assert_eq!(rgb.s3tc(DXTVersion::DXT1), SpecificFormat { which: Which::S3tc(S3tc::Rgb1), srgb: true });
    assert_eq!(rgba.s3tc(DXTVersion::DXT1), SpecificFormat { which: Which::S3tc(S3tc::Rgba1), srgb: false });
    assert_eq!(rgb.s3tc(DXTVersion::DXT3), SpecificFormat { which: Which::S3tc(S3tc::Rgba3), srgb: true });
    assert_eq!(rgb.s3tc(DXTVersion::DXT5), SpecificFormat { which: Which::S3tc(S3tc::Rgba5), srgb: true });
    assert_eq!(Which::S3tc(S3tc::Rgb1).channels(), Channels::Rgb);
    assert_eq!(Which::S3tc(S3tc::Rgba1).channels(), Channels::Rgba);
    assert!(!Which::S3tc(S3tc::Rgba5).signed());
    assert_eq!(Which::S3tc(S3tc::Rgba5).data_type(), DataType::Unspecified);
}

#[test]
fn bptc_follows_float_and_sign() {
    let normal = GenericFormat::new(Channels::Rgba, true, true, false);
    let signed = GenericFormat::new(Channels::Rgb, false, true, true);
    let unsigned = GenericFormat::new(Channels::Rgb, false, false, true);
    assert_eq!(normal.bptc(), SpecificFormat { which: Which::Bptc(Bptc::Rgba), srgb: true });
    assert_eq!(signed.bptc(), SpecificFormat { which: Which::Bptc(Bptc::RgbFloatSigned), srgb: false });
    assert_eq!(unsigned.bptc(), SpecificFormat { which: Which::Bptc(Bptc::RgbFloatUnsigned), srgb: false });
    assert_eq!(signed.bptc().into_generic(), signed);
    assert_eq!(unsigned.bptc().into_generic(), unsigned);
    assert_eq!(Which::Bptc(Bptc::Rgba).channels(), Channels::Rgba);
    assert!(!Which::Bptc(Bptc::Rgba).float());
    assert!(!Which::Bptc(Bptc::RgbFloatUnsigned).signed());
    assert!(signed.bptc().is_compressed());
}

#[test]
fn astc_keeps_the_block_size() {
    let generic = GenericFormat::new(Channels::Rgba, true, false, false);
    let specific = generic.astc(BlockSize::B8x8);
    assert_eq!(specific, SpecificFormat { which: Which::Astc(BlockSize::B8x8), srgb: true });
    assert_eq!(specific.which.channels(), Channels::Rgba);
    assert!(specific.is_compressed());
    assert_eq!(specific.to_generic(), generic);
}

#[test]
fn material_choices_compare_by_variant() {
    assert_eq!(RenderMethod::ForwardPlus, RenderMethod::ForwardPlus);
    assert_ne!(RenderMethod::Forward, RenderMethod::Deferred);
    assert_ne!(MaterialShader::Glass, MaterialShader::Hair);
}

#[test]
fn material_has_a_default_name() {
    assert_eq!(Material::default_name(), "Untitled Material");
    assert_eq!(Material::default().name, "Untitled Material");
}
