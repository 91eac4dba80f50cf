//! The commands: which of them apply to a file.
use crate::export::curves::AmigaPanning;
use crate::text::{ascii_lower, lowercase, same_text};
use vstd::prelude::*;

verus! {

/// What is asked for.
#[derive(Debug)]
pub struct Cli {
    pub command: Command,
}

#[derive(Debug)]
pub enum Command {
    /// Display the contents of a tracker module or VGM/VGZ file.
    List { input_path: String },
    /// Extract all samples from a tracker module as .wav files.
    ExtractSamples { input_path: String, output_dir: String, verbose: bool },
    /// Convert a tracker module's patterns to a .mid file, one track per sample.
    ExtractMidi { input_path: String, output_path: String, verbose: bool },
    /// Render a VGM/VGZ file's full mix to a single .wav file.
    ExtractMixedTracks { input_path: String, output_path: String, verbose: bool },
    /// Render a VGM/VGZ file to one .wav file per chip channel.
    ExtractSeparatedTracksWav { input_path: String, output_dir: String, verbose: bool },
    /// Convert a tracker module or VGM/VGZ file into a Live set.
    ConvertAls {
        input_path: String,
        template_path: Option<String>,
        output_path: String,
        amiga_panning: AmigaPanning,
        verbose: bool,
    },
    /// Play a VGM/VGZ file's channels, with a picture of each.
    Preview { input_path: String, record: Option<String>, no_loop: bool },
}

/// What a command is carried out on.
#[derive(Clone, Copy, Debug, PartialEq, Eq, Structural)]
pub enum Input {
    Module,
    Vgm,
}

/// The extension is that of a chip rip.
pub open spec fn is_vgm(extension: Option<Seq<char>>) -> bool {
    match extension {
        Some(e) => {
            let lower = e.map_values(|c: char| ascii_lower(c));
            lower == "vgm"@ || lower == "vgz"@
        },
        None => false,
    }
}

/// Whether a file with this extension is a chip rip.
pub fn is_vgm_path(extension: Option<&str>) -> (r: bool)
    ensures
        r == is_vgm(
            match extension {
                Some(e) => Some(e@),
                None => None,
            },
        ),
{
    match extension {
        Some(e) => {
            let lower: String = lowercase(e);
            same_text(lower.as_str(), "vgm") || same_text(lower.as_str(), "vgz")
        },
        None => false,
    }
}

pub open spec fn input_of(vgm: bool) -> Input {
    if vgm {
        Input::Vgm
    } else {
        Input::Module
    }
}

/// Why a command does not apply to a file, if it does not.
pub open spec fn refusal(command: Command, vgm: bool, preview_built: bool) -> Option<Seq<char>> {
    match command {
        Command::List { .. } => None,
        Command::ExtractSamples { .. } => if vgm {
            Some(
                "extract-samples doesn't apply to VGM/VGZ files: unlike a tracker module, a VGM has no stored samples to extract — its audio only exists once the chip registers are actually synthesized. Use 'extract-mixed-tracks'/'extract-separated-tracks-wav' for the rendered chip audio, or 'convert-als' for a full Ableton project."@,
            )
        } else {
            None
        },
        Command::ExtractMidi { .. } => if vgm {
            Some(
                "extract-midi doesn't apply to VGM/VGZ files: this project renders VGM chip audio directly (see 'convert-als'/'extract-mixed-tracks'/'extract-separated-tracks-wav') rather than transcribing register writes into MIDI notes."@,
            )
        } else {
            None
        },
        Command::ExtractMixedTracks { .. } => if vgm {
            None
        } else {
            Some(
                "extract-mixed-tracks doesn't apply to tracker modules yet: no audio-rendering engine exists for .mod/.xm/.s3m today (only VGM/VGZ's chip emulation renders real audio) — Ableton's own Sampler does the synthesis at playback time after 'convert-als', or use 'extract-samples' for the module's own raw stored samples."@,
            )
        },
        Command::ExtractSeparatedTracksWav { .. } => if vgm {
            None
        } else {
            Some(
                "extract-separated-tracks-wav doesn't apply to tracker modules yet: no audio-rendering engine exists for .mod/.xm/.s3m today (only VGM/VGZ's chip emulation renders real audio) — Ableton's own Sampler does the synthesis at playback time after 'convert-als', or use 'extract-samples' for the module's own raw stored samples."@,
            )
        },
        Command::ConvertAls { .. } => None,
        Command::Preview { .. } => if !vgm {
            Some(
                "preview doesn't apply to tracker modules yet: no audio-rendering engine exists for .mod/.xm/.s3m today (only VGM/VGZ's chip emulation renders real audio)."@,
            )
        } else if !preview_built {
            Some(
                "ablemod was built without the 'preview' feature — rebuild with `cargo build --features preview` (requires SDL2 and SDL2_ttf installed) to use this command."@,
            )
        } else {
            None
        },
    }
}

/// Decides on a command, by the extension of the file's name: what it is carried out on, or
/// why it is not.
pub fn run(cli: Cli, extension: Option<&str>, preview_built: bool) -> (r: Result<
    (Input, Command),
    String,
>)
    ensures
        ({
            let vgm = is_vgm(
                match extension {
                    Some(e) => Some(e@),
                    None => None,
                },
            );
            match refusal(cli.command, vgm, preview_built) {
                Some(text) => r matches Err(e) && e@ == text,
                None => r == Ok::<(Input, Command), String>((input_of(vgm), cli.command)),
            }
        }),
{
    let vgm: bool = is_vgm_path(extension);
    let input: Input = if vgm {
        Input::Vgm
    } else {
        Input::Module
    };
    let refused: Option<&'static str> = match &cli.command {
        Command::List { .. } => None,
        Command::ExtractSamples { .. } => if vgm {
            Some(
                "extract-samples doesn't apply to VGM/VGZ files: unlike a tracker module, a VGM has no stored samples to extract — its audio only exists once the chip registers are actually synthesized. Use 'extract-mixed-tracks'/'extract-separated-tracks-wav' for the rendered chip audio, or 'convert-als' for a full Ableton project.",
            )
        } else {
            None
        },
        Command::ExtractMidi { .. } => if vgm {
            Some(
                "extract-midi doesn't apply to VGM/VGZ files: this project renders VGM chip audio directly (see 'convert-als'/'extract-mixed-tracks'/'extract-separated-tracks-wav') rather than transcribing register writes into MIDI notes.",
            )
        } else {
            None
        },
        Command::ExtractMixedTracks { .. } => if vgm {
            None
        } else {
            Some(
                "extract-mixed-tracks doesn't apply to tracker modules yet: no audio-rendering engine exists for .mod/.xm/.s3m today (only VGM/VGZ's chip emulation renders real audio) — Ableton's own Sampler does the synthesis at playback time after 'convert-als', or use 'extract-samples' for the module's own raw stored samples.",
            )
        },
        Command::ExtractSeparatedTracksWav { .. } => if vgm {
            None
        } else {
            Some(
                "extract-separated-tracks-wav doesn't apply to tracker modules yet: no audio-rendering engine exists for .mod/.xm/.s3m today (only VGM/VGZ's chip emulation renders real audio) — Ableton's own Sampler does the synthesis at playback time after 'convert-als', or use 'extract-samples' for the module's own raw stored samples.",
            )
        },
        Command::ConvertAls { .. } => None,
        Command::Preview { .. } => if !vgm {
            Some(
                "preview doesn't apply to tracker modules yet: no audio-rendering engine exists for .mod/.xm/.s3m today (only VGM/VGZ's chip emulation renders real audio).",
            )
        } else if !preview_built {
            Some(
                "ablemod was built without the 'preview' feature — rebuild with `cargo build --features preview` (requires SDL2 and SDL2_ttf installed) to use this command.",
            )
        } else {
            None
        },
    };
    match refused {
        Some(text) => Err(text.to_owned()),
        None => Ok((input, cli.command)),
    }
}

} // verus!
