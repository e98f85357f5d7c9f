use atracdenc_core::at3::data::BfuAllocMode;
use atracdenc_core::bitstream::encode::BitStreamEncodeError;
use atracdenc_core::container::ContainerError;
use atracdenc_core::error::AtracdencError;
use atracdenc_core::format::{
    check_bfu_flags, check_job_options, check_pcm_format, infer_container, validate_container,
    Codec, Container,
};
use atracdenc_core::pcm::engine::PcmEngineError;
use atracdenc_core::text::parse_i32;

#[test]
fn facade_infers_containers_from_extension() {
    assert_eq!(Container::Aea, infer_container("aea", Codec::Atrac1));
    assert_eq!(Container::Oma, infer_container("omg", Codec::Atrac3));
    assert_eq!(Container::Riff, infer_container("at3", Codec::Atrac3));
    assert_eq!(Container::Rm, infer_container("rm", Codec::Atrac3));
    assert_eq!(Container::Oma, infer_container("bin", Codec::Atrac3));
    assert_eq!(Container::Raw, infer_container("dat", Codec::Atrac3));
}

#[test]
fn usual_containers_without_an_extension() {
    assert_eq!(Container::Aea, infer_container("", Codec::Atrac1));
    assert_eq!(Container::Oma, infer_container("", Codec::Atrac3plus));
    assert_eq!(Container::Oma, infer_container("oma", Codec::Atrac1));
    assert_eq!(Container::Riff, infer_container("wav", Codec::Atrac3Lp4));
    assert_eq!(Container::Rm, infer_container("ra", Codec::Atrac3));
    assert_eq!(Container::Raw, infer_container("raw", Codec::Atrac1));
}

#[test]
fn facade_validates_codec_container_matrix() {
    assert!(validate_container(Codec::Atrac1, Container::Aea).is_ok());
    assert!(validate_container(Codec::Atrac1, Container::Raw).is_ok());
    assert!(validate_container(Codec::Atrac3, Container::Rm).is_ok());
    assert_eq!(
        "invalid input: container oma is not supported for atrac1",
        validate_container(Codec::Atrac1, Container::Oma)
            .unwrap_err()
            .message()
    );
    assert_eq!(
        "invalid input: container rm is not supported for atrac3plus",
        validate_container(Codec::Atrac3plus, Container::Rm)
            .unwrap_err()
            .message()
    );
}

#[test]
fn rejects_conflicting_at3_bfu_mode_flags() {
    let err = check_bfu_flags(true, BfuAllocMode::Parity).unwrap_err();
    assert_eq!(
        "invalid input: --bfuidxfast cannot be combined with --at3-bfu-mode parity",
        err.message()
    );
    assert!(check_bfu_flags(true, BfuAllocMode::Fast).is_ok());
    assert!(check_bfu_flags(false, BfuAllocMode::Parity).is_ok());
}

#[test]
fn errors_in_words() {
    assert_eq!(
        "container error: invalid input: x",
        AtracdencError::Container(ContainerError::InvalidInput("x")).message()
    );
    assert_eq!(
        "PCM engine error: buffer too small",
        AtracdencError::PcmEngine(PcmEngineError::BufferTooSmall).message()
    );
    assert_eq!(
        "bitstream encode error: tonal bands (2) exceed quant units (1)",
        AtracdencError::BitStreamEncode(BitStreamEncodeError::TonalBandsExceedQuantUnits {
            tone_bands: 2,
            quant_units: 1,
        })
        .message()
    );
}

fn parse(s: &str) -> Option<i32> {
    parse_i32(&s.chars().collect::<Vec<char>>())
}

#[test]
fn numbers_are_read_like_the_standard_library_reads_them() {
    for s in [
        "0", "-0", "+7", "-", "+", "", "12a", "2147483647", "2147483648", "-2147483648",
        "-2147483649", "99999999999999999999", "007", " 1", "\u{661}",
    ] {
        assert_eq!(s.parse::<i32>().ok(), parse(s));
    }
}

#[test]
fn options_belong_to_their_codecs() {
    assert!(check_job_options(Codec::Atrac3, false, true, false).is_ok());
    assert!(check_job_options(Codec::Atrac3plus, false, false, true).is_ok());
    assert!(check_job_options(Codec::Atrac1, true, false, false).is_ok());
    for (codec, decode) in [(Codec::Atrac1, false), (Codec::Atrac3, true)] {
        assert_eq!(
            "invalid input: --yaml-log is only supported for ATRAC3 encode",
            check_job_options(codec, decode, true, true).unwrap_err().message()
        );
        assert_eq!(
            "invalid input: --advanced is only supported for ATRAC3plus encode",
            check_job_options(codec, decode, false, true).unwrap_err().message()
        );
    }
}

#[test]
fn input_has_one_format() {
    assert!(check_pcm_format(44_100, 16, 1).is_ok());
    assert!(check_pcm_format(44_100, 16, 2).is_ok());
    for (rate, bits, channels, what) in [
        (48_000, 24, 0, "unsupported sample rate"),
        (44_100, 24, 0, "unsupported sample size"),
        (44_100, 16, 0, "unsupported number of channels"),
        (44_100, 16, 3, "unsupported number of channels"),
    ] {
        let err = check_pcm_format(rate, bits, channels).unwrap_err();
        assert_eq!(format!("invalid input: {what}"), err.message());
    }
}
