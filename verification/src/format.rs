//! Codecs, containers and which of them go together.

use vstd::prelude::*;
use crate::at3::data::BfuAllocMode;
use crate::error::AtracdencError;
use crate::text::{chars_of, same_text};

verus! {

#[derive(Debug, Clone, Copy, Eq, PartialEq, Structural)]
pub enum Codec {
    Atrac1,
    Atrac3,
    Atrac3Lp4,
    Atrac3plus,
}

#[derive(Debug, Clone, Copy, Eq, PartialEq, Structural)]
pub enum Container {
    Aea,
    Oma,
    Riff,
    Rm,
    Raw,
}

impl Codec {
    /// The name of the codec.
    pub open spec fn text(&self) -> Seq<char> {
        match *self {
            Codec::Atrac1 => "atrac1"@,
            Codec::Atrac3 => "atrac3"@,
            Codec::Atrac3Lp4 => "atrac3-lp4"@,
            Codec::Atrac3plus => "atrac3plus"@,
        }
    }

    pub fn name(&self) -> (n: &'static str)
        ensures
            n@ == self.text(),
    {
        match *self {
            Codec::Atrac1 => "atrac1",
            Codec::Atrac3 => "atrac3",
            Codec::Atrac3Lp4 => "atrac3-lp4",
            Codec::Atrac3plus => "atrac3plus",
        }
    }
}

impl Container {
    /// The name of the container.
    pub open spec fn text(&self) -> Seq<char> {
        match *self {
            Container::Aea => "aea"@,
            Container::Oma => "oma"@,
            Container::Riff => "riff"@,
            Container::Rm => "rm"@,
            Container::Raw => "raw"@,
        }
    }

    pub fn name(&self) -> (n: &'static str)
        ensures
            n@ == self.text(),
    {
        match *self {
            Container::Aea => "aea",
            Container::Oma => "oma",
            Container::Riff => "riff",
            Container::Rm => "rm",
            Container::Raw => "raw",
        }
    }
}

/// The container that the extension of a file name stands for, else the usual one
/// of the codec.
pub open spec fn inferred(extension: Seq<char>, codec: Codec) -> Container {
    if extension == "aea"@ {
        Container::Aea
    } else if extension == "oma"@ || extension == "omg"@ {
        Container::Oma
    } else if extension == "at3"@ || extension == "wav"@ {
        Container::Riff
    } else if extension == "rm"@ || extension == "ra"@ {
        Container::Rm
    } else if extension == "raw"@ || extension == "dat"@ {
        Container::Raw
    } else if codec == Codec::Atrac1 {
        Container::Aea
    } else {
        Container::Oma
    }
}

pub fn infer_container(extension: &str, codec: Codec) -> (c: Container)
    ensures
        c == inferred(extension@, codec),
{
    let ext_chars: Vec<char> = chars_of(extension);
    let ext: &[char] = ext_chars.as_slice();
    if same_text(ext, "aea") {
        Container::Aea
    } else if same_text(ext, "oma") || same_text(ext, "omg") {
        Container::Oma
    } else if same_text(ext, "at3") || same_text(ext, "wav") {
        Container::Riff
    } else if same_text(ext, "rm") || same_text(ext, "ra") {
        Container::Rm
    } else if same_text(ext, "raw") || same_text(ext, "dat") {
        Container::Raw
    } else if codec == Codec::Atrac1 {
        Container::Aea
    } else {
        Container::Oma
    }
}

/// Which containers hold frames of a codec.
pub open spec fn supported(codec: Codec, container: Container) -> bool {
    match container {
        Container::Aea => codec == Codec::Atrac1,
        Container::Oma => codec != Codec::Atrac1,
        Container::Riff => codec != Codec::Atrac1,
        Container::Rm => codec == Codec::Atrac3 || codec == Codec::Atrac3Lp4,
        Container::Raw => true,
    }
}

pub fn validate_container(codec: Codec, container: Container) -> (r: Result<(), AtracdencError>)
    ensures
        match r {
            Ok(_) => supported(codec, container),
            Err(e) => !supported(codec, container) && e.is_invalid_input(
                "container "@ + container.text() + " is not supported for "@ + codec.text(),
            ),
        },
{
    let fits: bool = match container {
        Container::Aea => codec == Codec::Atrac1,
        Container::Oma => codec != Codec::Atrac1,
        Container::Riff => codec != Codec::Atrac1,
        Container::Rm => codec == Codec::Atrac3 || codec == Codec::Atrac3Lp4,
        Container::Raw => true,
    };
    if fits {
        Ok(())
    } else {
        Err(
            AtracdencError::InvalidInput(
                "container ".to_owned().concat(container.name()).concat(
                    " is not supported for ",
                ).concat(codec.name()),
            ),
        )
    }
}

/// Refuses a request for both ways to allocate blocks.
pub fn check_bfu_flags(bfu_idx_fast: bool, bfu_mode: BfuAllocMode) -> (r: Result<
    (),
    AtracdencError,
>)
    ensures
        match r {
            Ok(_) => !bfu_idx_fast || bfu_mode != BfuAllocMode::Parity,
            Err(e) => bfu_idx_fast && bfu_mode == BfuAllocMode::Parity && e.is_invalid_input(
                "--bfuidxfast cannot be combined with --at3-bfu-mode parity"@,
            ),
        },
{
    if bfu_idx_fast && bfu_mode == BfuAllocMode::Parity {
        return Err(
            AtracdencError::InvalidInput(
                "--bfuidxfast cannot be combined with --at3-bfu-mode parity".to_owned(),
            ),
        );
    }
    Ok(())
}

/// A log of gain curves is only kept while ATRAC3 is encoded.
pub open spec fn logs_curves(codec: Codec, decode: bool) -> bool {
    !decode && (codec == Codec::Atrac3 || codec == Codec::Atrac3Lp4)
}

/// Advanced options are only there for the ATRAC3plus encoder.
pub open spec fn takes_advanced(codec: Codec, decode: bool) -> bool {
    !decode && codec == Codec::Atrac3plus
}

/// Refuses options that a job does not have.
pub fn check_job_options(codec: Codec, decode: bool, yaml_log: bool, advanced: bool) -> (r: Result<
    (),
    AtracdencError,
>)
    ensures
        match r {
            Ok(_) => (yaml_log ==> logs_curves(codec, decode)) && (advanced ==> takes_advanced(
                codec,
                decode,
            )),
            Err(e) => if yaml_log && !logs_curves(codec, decode) {
                e.is_invalid_input("--yaml-log is only supported for ATRAC3 encode"@)
            } else {
                advanced && !takes_advanced(codec, decode) && e.is_invalid_input(
                    "--advanced is only supported for ATRAC3plus encode"@,
                )
            },
        },
{
    if yaml_log && (decode || !(codec == Codec::Atrac3 || codec == Codec::Atrac3Lp4)) {
        return Err(
            AtracdencError::InvalidInput(
                "--yaml-log is only supported for ATRAC3 encode".to_owned(),
            ),
        );
    }
    if advanced && (decode || codec != Codec::Atrac3plus) {
        return Err(
            AtracdencError::InvalidInput(
                "--advanced is only supported for ATRAC3plus encode".to_owned(),
            ),
        );
    }
    Ok(())
}

/// Input has to be sampled at 44100 Hz in 16 bits, in one channel or two.
pub fn check_pcm_format(sample_rate: u32, bits_per_sample: u16, channels: u16) -> (r: Result<
    (),
    AtracdencError,
>)
    ensures
        match r {
            Ok(_) => sample_rate == 44100 && bits_per_sample == 16 && 1 <= channels <= 2,
            Err(e) => if sample_rate != 44100 {
                e.is_invalid_input("unsupported sample rate"@)
            } else if bits_per_sample != 16 {
                e.is_invalid_input("unsupported sample size"@)
            } else {
                !(1 <= channels <= 2) && e.is_invalid_input("unsupported number of channels"@)
            },
        },
{
    if sample_rate != 44100 {
        return Err(AtracdencError::InvalidInput("unsupported sample rate".to_owned()));
    }
    if bits_per_sample != 16 {
        return Err(AtracdencError::InvalidInput("unsupported sample size".to_owned()));
    }
    if channels < 1 || channels > 2 {
        return Err(AtracdencError::InvalidInput("unsupported number of channels".to_owned()));
    }
    Ok(())
}

/// The extension stands for a container whatever the codec.
pub open spec fn names_container(extension: Seq<char>) -> bool {
    ||| extension == "aea"@
    ||| extension == "oma"@ || extension == "omg"@
    ||| extension == "at3"@ || extension == "wav"@
    ||| extension == "rm"@ || extension == "ra"@
    ||| extension == "raw"@ || extension == "dat"@
}

/// Where the extension stands for no container, the one that is taken holds frames
/// of the codec.
pub proof fn law_usual_container_fits(extension: Seq<char>, codec: Codec)
    requires
        !names_container(extension),
    ensures
        supported(codec, inferred(extension, codec)),
{
}

/// An extension that stands for a container does so whatever the codec.
pub proof fn law_extension_decides(extension: Seq<char>, a: Codec, b: Codec)
    requires
        names_container(extension),
    ensures
        inferred(extension, a) == inferred(extension, b),
{
}

/// Which containers hold frames of a codec: AEA those of ATRAC1 alone, OMA and RIFF those of
/// the other codecs, RealMedia those of ATRAC3 at either rate, and a raw file all.
pub proof fn law_containers_of(codec: Codec)
    ensures
        supported(codec, Container::Aea) <==> codec == Codec::Atrac1,
        supported(codec, Container::Oma) <==> codec != Codec::Atrac1,
        supported(codec, Container::Riff) <==> codec != Codec::Atrac1,
        supported(codec, Container::Rm) <==> codec == Codec::Atrac3 || codec == Codec::Atrac3Lp4,
        supported(codec, Container::Raw),
{
}

/// Which container an extension stands for.
pub proof fn law_extensions(extension: Seq<char>, codec: Codec)
    ensures
        extension == "aea"@ ==> inferred(extension, codec) == Container::Aea,
        extension == "oma"@ || extension == "omg"@ ==> inferred(extension, codec) == Container::Oma,
        extension == "at3"@ || extension == "wav"@ ==> inferred(extension, codec) == Container::Riff,
        extension == "rm"@ || extension == "ra"@ ==> inferred(extension, codec) == Container::Rm,
        extension == "raw"@ || extension == "dat"@ ==> inferred(extension, codec) == Container::Raw,
        !names_container(extension) && codec == Codec::Atrac1 ==> inferred(extension, codec)
            == Container::Aea,
        !names_container(extension) && codec != Codec::Atrac1 ==> inferred(extension, codec)
            == Container::Oma,
{
    reveal_strlit("aea");
    reveal_strlit("oma");
    reveal_strlit("omg");
    reveal_strlit("at3");
    reveal_strlit("wav");
    reveal_strlit("rm");
    reveal_strlit("ra");
    reveal_strlit("raw");
    reveal_strlit("dat");
    assert("aea"@[0] == 'a' && "oma"@[0] == 'o' && "omg"@[0] == 'o' && "at3"@[1] == 't' && "wav"@[0]
        == 'w' && "rm"@[0] == 'r' && "ra"@[0] == 'r' && "raw"@[0] == 'r' && "dat"@[0] == 'd'
        && "aea"@[1] == 'e' && "rm"@[1] == 'm' && "ra"@[1] == 'a' && "omg"@[2] == 'g' && "oma"@[2]
        == 'a' && "at3"@[0] == 'a' && "raw"@.len() == 3 && "ra"@.len() == 2 && "rm"@.len() == 2);
}

/// The names of codecs and containers.
pub proof fn law_names()
    ensures
        Codec::Atrac1.text() == "atrac1"@,
        Codec::Atrac3.text() == "atrac3"@,
        Codec::Atrac3Lp4.text() == "atrac3-lp4"@,
        Codec::Atrac3plus.text() == "atrac3plus"@,
        Container::Aea.text() == "aea"@,
        Container::Oma.text() == "oma"@,
        Container::Riff.text() == "riff"@,
        Container::Rm.text() == "rm"@,
        Container::Raw.text() == "raw"@,
{
}

} // verus!
