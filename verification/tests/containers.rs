use atracdenc_core::container::aea::{AeaInput, AeaOutput, AEA_FRAME_SIZE, AEA_META_SIZE};
use atracdenc_core::container::at3::{At3Output, AT3_HEADER_SIZE, ATRAC3PLUS_SUBFORMAT_GUID};
use atracdenc_core::container::oma::{OmaChannelFormat, OmaCodec, OmaOutput};
use atracdenc_core::container::raw::RawOutput;
use atracdenc_core::container::rm::{
    scramble_data, RmOutput, DATA_HEADER_SZ, MDPR_HEADER_SZ, PROP_HEADER_SZ, RMF_HEADER_SZ,
};
use atracdenc_core::container::{CompressedInput, CompressedOutput, ContainerError};

#[test]
fn aea_header_dummy_skip_and_readback() {
    let mut out = AeaOutput::new("test-title-that-is-long", 2, 0).unwrap();
    out.write_frame(&[0xaa; AEA_FRAME_SIZE]).unwrap();
    out.write_frame(&[0xbb; AEA_FRAME_SIZE]).unwrap();
    out.write_frame(&[0xcc; AEA_FRAME_SIZE]).unwrap();
    assert_eq!("test-title-that", out.name());
    let bytes = out.into_inner().unwrap();

    assert_eq!(&[0x00, 0x08, 0x00, 0x00], &bytes[0..4]);
    assert_eq!(2_u32.to_ne_bytes(), bytes[260..264]);
    assert_eq!(2, bytes[264]);
    assert_eq!(AEA_META_SIZE + AEA_FRAME_SIZE * 3, bytes.len());

    let mut input = AeaInput::new(bytes).unwrap();
    assert_eq!(2, input.channels());
    assert_eq!("test-title-that", input.name());
    assert_eq!(
        Some(vec![0_u8; AEA_FRAME_SIZE]),
        input.read_frame().unwrap()
    );
    assert_eq!(
        Some(vec![0xbb; AEA_FRAME_SIZE]),
        input.read_frame().unwrap()
    );
    assert_eq!(
        Some(vec![0xcc; AEA_FRAME_SIZE]),
        input.read_frame().unwrap()
    );
    assert_eq!(None, input.read_frame().unwrap());
}

#[test]
fn aea_announces_frames_and_pads_short_ones() {
    let mut out = AeaOutput::new("t", 1, 7).unwrap();
    assert_eq!(1, out.channels());
    out.write_frame(&[1]).unwrap();
    out.write_frame(&[2, 3]).unwrap();
    out.finalize().unwrap();
    let bytes = out.into_inner().unwrap();
    assert_eq!(1_u32.to_ne_bytes(), bytes[260..264]);
    let last = &bytes[AEA_META_SIZE + AEA_FRAME_SIZE..];
    assert_eq!(AEA_FRAME_SIZE, last.len());
    assert_eq!(&[2, 3, 0], &last[..3]);

    let fresh = AeaOutput::new("", 0, 7).unwrap();
    assert_eq!("", fresh.name());
}

#[test]
fn aea_length_counts_frames_after_the_preroll() {
    let mut bytes = vec![0_u8; AEA_META_SIZE + AEA_FRAME_SIZE * 20];
    bytes[1] = 8;
    bytes[264] = 2;
    let input = AeaInput::new(bytes.clone()).unwrap();
    assert_eq!(512 * 5, input.length_in_samples());
    assert_eq!(212, input.frame_size());
    bytes[264] = 0;
    let input = AeaInput::new(bytes.clone()).unwrap();
    assert_eq!(512 * 15, input.length_in_samples());
    bytes.truncate(AEA_META_SIZE + AEA_FRAME_SIZE * 4);
    let input = AeaInput::new(bytes).unwrap();
    assert_eq!(0, input.length_in_samples());
}

#[test]
fn aea_refuses_what_is_no_header() {
    assert_eq!(
        ContainerError::UnexpectedEof,
        AeaInput::new(vec![0; 100]).err().unwrap()
    );
    let mut bytes = vec![0_u8; AEA_META_SIZE];
    assert_eq!(
        ContainerError::InvalidInput("invalid AEA header"),
        AeaInput::new(bytes.clone()).err().unwrap()
    );
    bytes[1] = 8;
    bytes[264] = 3;
    assert_eq!(
        "invalid input: invalid AEA header",
        AeaInput::new(bytes).err().unwrap().message()
    );
}

#[test]
fn aea_title_that_is_no_text_is_empty() {
    let mut bytes = vec![0_u8; AEA_META_SIZE];
    bytes[1] = 8;
    bytes[4] = 0xff;
    assert_eq!("", AeaInput::new(bytes.clone()).unwrap().name());
    for b in &mut bytes[4..20] {
        *b = b'x';
    }
    assert_eq!("xxxxxxxxxxxxxxxx", AeaInput::new(bytes).unwrap().name());
}

#[test]
fn atrac3_wave_header_and_backfill() {
    let mut out = At3Output::atrac3(2, 0, 192, true).unwrap();
    out.write_frame(&[0x11; 192]).unwrap();
    out.write_frame(&[0x22; 192]).unwrap();
    let bytes = out.into_inner().unwrap();

    assert_eq!(b"RIFF", &bytes[0..4]);
    assert_eq!(b"WAVE", &bytes[8..12]);
    assert_eq!(0x0270_u16.to_le_bytes(), bytes[20..22]);
    assert_eq!(192_u16.to_le_bytes(), bytes[32..34]);
    assert_eq!(14_u16.to_le_bytes(), bytes[36..38]);
    assert_eq!(b"fact", &bytes[52..56]);
    assert_eq!((2 * 1024_u32).to_le_bytes(), bytes[60..64]);
    assert_eq!((2 * 192_u32).to_le_bytes(), bytes[72..76]);
    assert_eq!(AT3_HEADER_SIZE + 384, bytes.len());
}

#[test]
fn atrac3_header_bytes() {
    let out = At3Output::atrac3(2, 3, 384, false).unwrap();
    assert_eq!(2, out.channels());
    assert_eq!("", out.name());
    let bytes = out.into_inner().unwrap();
    let mut want = Vec::new();
    want.extend_from_slice(b"RIFF");
    want.extend_from_slice(&68_u32.to_le_bytes());
    want.extend_from_slice(b"WAVEfmt ");
    want.extend_from_slice(&32_u32.to_le_bytes());
    for x in [0x0270_u16, 2] {
        want.extend_from_slice(&x.to_le_bytes());
    }
    want.extend_from_slice(&44_100_u32.to_le_bytes());
    want.extend_from_slice(&(384 * 44_100_u32 / 1024).to_le_bytes());
    for x in [384_u16, 0, 14, 1] {
        want.extend_from_slice(&x.to_le_bytes());
    }
    want.extend_from_slice(&0x1000_u32.to_le_bytes());
    for x in [0_u16, 0, 1, 0] {
        want.extend_from_slice(&x.to_le_bytes());
    }
    want.extend_from_slice(b"fact");
    for x in [8_u32, 0, 1024] {
        want.extend_from_slice(&x.to_le_bytes());
    }
    want.extend_from_slice(b"data");
    want.extend_from_slice(&0_u32.to_le_bytes());
    assert_eq!(want, bytes);
}

#[test]
fn atrac3plus_wave_header() {
    let out = At3Output::atrac3plus(2, 0, 376).unwrap();
    let bytes = out.into_inner().unwrap();
    assert_eq!(b"RIFF", &bytes[0..4]);
    assert_eq!(0xfffe_u16.to_le_bytes(), bytes[20..22]);
    assert_eq!(22_u16.to_le_bytes(), bytes[36..38]);
    assert_eq!(0x0000_0003_u32.to_le_bytes(), bytes[40..44]);
    assert_eq!(ATRAC3PLUS_SUBFORMAT_GUID, bytes[44..60]);
    assert_eq!(b"fact", &bytes[60..64]);
    assert_eq!(b"data", &bytes[72..76]);
}

#[test]
fn atrac3plus_backfill() {
    let mut out = At3Output::atrac3plus(1, 9, 8).unwrap();
    out.write_frame(&[7; 8]).unwrap();
    let bytes = out.into_inner().unwrap();
    assert_eq!(80 + 8, bytes.len());
    assert_eq!(80_u32.to_le_bytes(), bytes[4..8]);
    assert_eq!(4_u32.to_le_bytes(), bytes[40..44]);
    assert_eq!(2048_u32.to_le_bytes(), bytes[68..72]);
    assert_eq!(8_u32.to_le_bytes(), bytes[76..80]);
}

#[test]
fn atrac3plus_rejects_oversized_u16_fields() {
    assert_eq!(
        ContainerError::InvalidInput("too many ATRAC3plus channels"),
        At3Output::atrac3plus(usize::from(u16::MAX) + 1, 0, 376)
            .err()
            .unwrap()
    );
    assert_eq!(
        ContainerError::InvalidInput("ATRAC3plus frame size too large"),
        At3Output::atrac3plus(2, 0, u32::from(u16::MAX) + 1)
            .err()
            .unwrap()
    );
}

#[test]
fn riff_refuses_large_files_and_odd_frames() {
    assert_eq!(
        ContainerError::InvalidInput("RIFF file too large"),
        At3Output::atrac3(2, u32::MAX, 192, false).err().unwrap()
    );
    assert_eq!(
        ContainerError::InvalidInput("RIFF file too large"),
        At3Output::atrac3plus(2, u32::MAX, 8).err().unwrap()
    );
    let mut out = At3Output::atrac3(2, 0, 192, false).unwrap();
    assert_eq!(
        Err(ContainerError::InvalidInput("unexpected AT3 frame size")),
        out.write_frame(&[0; 191])
    );
}

#[test]
fn oma_atrac3_header_and_frame() {
    let mut out = OmaOutput::new(
        OmaCodec::Atrac3,
        44_100,
        OmaChannelFormat::StereoJoint,
        192,
    )
    .unwrap();
    out.write_frame(&[0x55; 192]).unwrap();
    let bytes = out.into_inner();
    assert_eq!(b"EA3", &bytes[0..3]);
    assert_eq!(1, bytes[3]);
    assert_eq!(96, bytes[5]);
    assert_eq!([0xff, 0xff], bytes[6..8]);
    let expected = (1_u32 << 17) | (1_u32 << 13) | (192_u32 / 8);
    assert_eq!(expected.to_be_bytes(), bytes[32..36]);
    assert_eq!(96 + 192, bytes.len());
}

#[test]
fn oma_atrac3plus_header() {
    let out = OmaOutput::new(
        OmaCodec::Atrac3Plus,
        44_100,
        OmaChannelFormat::Stereo,
        376,
    )
    .unwrap();
    let bytes = out.into_inner();
    let expected = (1_u32 << 24) | (1_u32 << 13) | (2_u32 << 10) | ((376_u32 - 8) / 8);
    assert_eq!(expected.to_be_bytes(), bytes[32..36]);
}

#[test]
fn oma_refuses_formats_and_short_frames() {
    let new = OmaOutput::new;
    assert_eq!(
        ContainerError::UnsupportedSampleRate,
        new(OmaCodec::Atrac3, 22_050, OmaChannelFormat::Stereo, 192)
            .err()
            .unwrap()
    );
    assert_eq!(
        ContainerError::InvalidInput("ATRAC3 OMA requires stereo channel format"),
        new(OmaCodec::Atrac3, 48_000, OmaChannelFormat::Mono, 192)
            .err()
            .unwrap()
    );
    assert_eq!(
        ContainerError::InvalidInput("OMA frame too large"),
        new(OmaCodec::Atrac3, 48_000, OmaChannelFormat::Stereo, 8192)
            .err()
            .unwrap()
    );
    assert_eq!(
        ContainerError::InvalidInput("OMA frame too large"),
        new(OmaCodec::Atrac3Plus, 96_000, OmaChannelFormat::Mono, 8200)
            .err()
            .unwrap()
    );
    let mut out = new(OmaCodec::Atrac3Plus, 32_000, OmaChannelFormat::Channels8, 16).unwrap();
    assert_eq!(8, out.channels());
    assert_eq!("ATRAC3PLUS", out.name());
    assert_eq!(
        Err(ContainerError::InvalidInput("short OMA frame")),
        out.write_frame(&[0; 15])
    );
    out.write_frame(&[9; 20]).unwrap();
    assert_eq!(96 + 16, out.into_inner().len());
}

#[test]
fn raw_output_pads_to_fixed_frame_size() {
    let mut out = RawOutput::new(2, Some(4));
    out.write_frame(&[1, 2]).unwrap();
    out.write_frame(&[3, 4, 5, 6, 7]).unwrap();
    assert_eq!(vec![1, 2, 0, 0, 3, 4, 5, 6], out.into_inner());
}

#[test]
fn raw_output_without_a_size_keeps_frames() {
    let mut out = RawOutput::new(1, None);
    out.write_frame(&[1, 2]).unwrap();
    out.write_frame(&[3]).unwrap();
    assert_eq!(1, out.channels());
    assert_eq!("", out.name());
    assert_eq!(vec![1, 2, 3], out.into_inner());
}

#[test]
fn rm_header_packet_and_data_backfill() {
    let mut out = RmOutput::new(2, 3, 16, true).unwrap();
    out.write_frame(&[0; 16]).unwrap();
    out.write_frame(&[1; 16]).unwrap();
    out.write_frame(&[2; 16]).unwrap();
    let bytes = out.into_inner().unwrap();

    assert_eq!(b".RMF", &bytes[0..4]);
    assert_eq!((RMF_HEADER_SZ as u32).to_be_bytes(), bytes[4..8]);
    assert_eq!(b"PROP", &bytes[18..22]);
    assert_eq!(b"MDPR", &bytes[68..72]);
    let data_pos = RMF_HEADER_SZ + PROP_HEADER_SZ + MDPR_HEADER_SZ;
    assert_eq!(b"DATA", &bytes[data_pos..data_pos + 4]);
    assert_eq!(
        (DATA_HEADER_SZ as u32 + 12 + 16 * 3).to_be_bytes(),
        bytes[data_pos + 4..data_pos + 8]
    );
    assert_eq!(3_u32.to_be_bytes(), bytes[data_pos + 10..data_pos + 14]);
    assert_eq!(
        0_u16.to_be_bytes(),
        bytes[data_pos + DATA_HEADER_SZ..data_pos + DATA_HEADER_SZ + 2]
    );
    assert_eq!(
        (3 * 16_u16 + 12).to_be_bytes(),
        bytes[data_pos + DATA_HEADER_SZ + 2..data_pos + DATA_HEADER_SZ + 4]
    );
}

#[test]
fn rm_properties_and_codec_data() {
    let out = RmOutput::new(2, 100, 384, false).unwrap();
    assert_eq!(0, out.channels());
    assert_eq!("", out.name());
    let bytes = out.into_inner().unwrap();
    let bitrate = (8.0 * 384.0 * 44_100.0 / 1024.0) as u32;
    let duration = (100.0 * (1000.0 * 1024.0 / 44_100.0)) as u32;
    let prop = &bytes[18..68];
    assert_eq!(bitrate.to_be_bytes(), prop[10..14]);
    assert_eq!(bitrate.to_be_bytes(), prop[14..18]);
    assert_eq!(384_u32.to_be_bytes(), prop[18..22]);
    assert_eq!(100_u32.to_be_bytes(), prop[26..30]);
    assert_eq!(duration.to_be_bytes(), prop[30..34]);
    assert_eq!(236_u32.to_be_bytes(), prop[42..46]);
    let mdpr = &bytes[68..236];
    assert_eq!(13, mdpr[40]);
    assert_eq!(b"Audio Stream\0", &mdpr[41..54]);
    assert_eq!(21, mdpr[54]);
    assert_eq!(b"audio/x-pn-realaudio\0", &mdpr[55..76]);
    let codec = &mdpr[76..];
    assert_eq!(92, codec.len());
    assert_eq!(88_u32.to_be_bytes(), codec[0..4]);
    assert_eq!(&[b'.', b'r', b'a', 0xfd], &codec[4..8]);
    assert_eq!(b".ra5", &codec[12..16]);
    assert_eq!((384_u32 * 3).to_be_bytes(), codec[28..32]);
    assert_eq!((bitrate / 8 * 60).to_be_bytes(), codec[36..40]);
    assert_eq!((384_u16 * 3).to_be_bytes(), codec[46..48]);
    assert_eq!(384_u16.to_be_bytes(), codec[48..50]);
    assert_eq!(44_100_u16.to_be_bytes(), codec[54..56]);
    assert_eq!(b"genratrc", &codec[66..74]);
    assert_eq!([1, 7], codec[74..76]);
    assert_eq!(2048_u16.to_be_bytes(), codec[86..88]);
    assert_eq!(0x02_u16.to_be_bytes(), codec[90..92]);
}

#[test]
fn rm_timestamps_add_up_like_doubles() {
    let mut out = RmOutput::new(2, 0, 8, false).unwrap();
    let packets = 3000;
    for _ in 0..3 * packets {
        out.write_frame(&[0; 8]).unwrap();
    }
    let bytes = out.into_inner().unwrap();
    let packet_len = 12 + 3 * 8;
    let mut timestamp = 0.0_f64;
    let frame_duration = 1000.0 * 1024.0 / 44_100.0;
    for k in 0..packets {
        let at = 254 + k * packet_len;
        assert_eq!((timestamp as u32).to_be_bytes(), bytes[at + 6..at + 10]);
        assert_eq!([0, 2], bytes[at + 10..at + 12]);
        timestamp += frame_duration * 3.0;
    }
}

#[test]
fn rm_refuses_odd_frames() {
    let mut out = RmOutput::new(2, 0, 16, false).unwrap();
    assert_eq!(
        Err(ContainerError::InvalidInput("unexpected RM frame size")),
        out.write_frame(&[0; 15])
    );
}

#[test]
fn scrambling_undoes_itself() {
    let data: Vec<u8> = (0..11).collect();
    let mixed = scramble_data(&data);
    assert_eq!([0x53, 0x7e, 0x63, 0x00, 0x57], mixed[..5]);
    assert_eq!(data, scramble_data(&mixed));
}

#[test]
fn container_errors_in_words() {
    assert_eq!(
        "container already consumed",
        ContainerError::AlreadyConsumed.message()
    );
    assert_eq!(
        "unsupported sample rate",
        ContainerError::UnsupportedSampleRate.message()
    );
    assert_eq!(
        "unexpected end of file",
        ContainerError::UnexpectedEof.message()
    );
}
