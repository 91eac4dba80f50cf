//! Which parser a module file goes to.
use crate::formats::base::{Module, ModuleView};
use crate::formats::fasttracker2;
use crate::formats::protracker;
use crate::text::{ascii_lower, lowercase, same_text};
use vstd::prelude::*;

verus! {

/// The format that a file extension, in small letters, stands for.
pub open spec fn format_named(ext: Seq<char>) -> Option<Seq<char>> {
    if ext == "mod"@ {
        Some("protracker"@)
    } else if ext == "xm"@ {
        Some("fasttracker2"@)
    } else if ext == "s3m"@ {
        Some("screamtracker3"@)
    } else {
        None
    }
}

/// Whether files of the format can be parsed.
pub open spec fn is_implemented(format: Seq<char>) -> bool {
    format == "protracker"@ || format == "fasttracker2"@
}

/// A file extension in small letters; none is the empty one.
pub open spec fn small_extension(ext: Option<Seq<char>>) -> Seq<char> {
    match ext {
        Some(e) => e.map_values(|c: char| ascii_lower(c)),
        None => Seq::empty(),
    }
}

/// The format of a file with the given extension, or why it cannot be read.
pub open spec fn detected(extension: Option<Seq<char>>) -> Result<Seq<char>, Seq<char>> {
    let ext = small_extension(extension);
    match format_named(ext) {
        None => Err(
            "Unrecognized module extension: '."@ + ext + "' (expected .mod, .xm or .s3m)"@,
        ),
        Some(format) => if is_implemented(format) {
            Ok(format)
        } else {
            Err(
                format + " support (."@ + ext
                    + ") is not implemented yet — only ProTracker (.mod) and FastTracker 2 (.xm) are supported so far"@,
            )
        },
    }
}

fn supported_format(ext: &str) -> (r: Option<&'static str>)
    ensures
        match r {
            Some(f) => format_named(ext@) == Some(f@),
            None => format_named(ext@) is None,
        },
{
    if same_text(ext, "mod") {
        Some("protracker")
    } else if same_text(ext, "xm") {
        Some("fasttracker2")
    } else if same_text(ext, "s3m") {
        Some("screamtracker3")
    } else {
        None
    }
}

fn implemented(format: &str) -> (r: bool)
    ensures
        r == is_implemented(format@),
{
    same_text(format, "protracker") || same_text(format, "fasttracker2")
}

/// The text of an optional extension.
pub open spec fn extension_view(extension: Option<&str>) -> Option<Seq<char>> {
    match extension {
        Some(e) => Some(e@),
        None => None,
    }
}

/// The format of a module file, by the extension of its path.
pub fn detect_format(extension: Option<&str>) -> (r: Result<&'static str, String>)
    ensures
        match r {
            Ok(format) => detected(extension_view(extension)) == Ok::<Seq<char>, Seq<char>>(
                format@,
            ),
            Err(e) => detected(extension_view(extension)) == Err::<Seq<char>, Seq<char>>(e@),
        },
{
    let ext: String = match extension {
        Some(e) => lowercase(e),
        None => String::new(),
    };
    match supported_format(ext.as_str()) {
        None => {
            let mut text: String = "Unrecognized module extension: '.".to_owned();
            text.append(ext.as_str());
            text.append("' (expected .mod, .xm or .s3m)");
            Err(text)
        },
        Some(format) => if implemented(format) {
            Ok(format)
        } else {
            let mut text: String = format.to_owned();
            text.append(" support (.");
            text.append(ext.as_str());
            text.append(
                ") is not implemented yet — only ProTracker (.mod) and FastTracker 2 (.xm) are supported so far",
            );
            Err(text)
        },
    }
}

/// Whether a file of the given format holds all that it announces.
pub open spec fn loadable(format: Seq<char>, data: Seq<u8>) -> bool {
    if format == "protracker"@ {
        protracker::complete(data)
    } else {
        format == "fasttracker2"@ && fasttracker2::complete(data)
    }
}

/// The module in a file of the given format.
pub open spec fn loaded(format: Seq<char>, data: Seq<u8>, rates: Seq<u32>) -> ModuleView {
    if format == "protracker"@ {
        protracker::module_of(data)
    } else {
        fasttracker2::module_of(data, rates)
    }
}

/// Whether a file of the given format holds all that it announces.
pub fn is_loadable(format: &str, data: &[u8]) -> (r: bool)
    ensures
        r == loadable(format@, data@),
{
    if same_text(format, "protracker") {
        protracker::is_complete(data)
    } else {
        same_text(format, "fasttracker2") && fasttracker2::is_complete(data)
    }
}

/// Parses a module file of the given format. `rates` holds the sample rate of each tuning of
/// a FastTracker 2 sample.
pub fn load_module(format: &str, data: &[u8], rates: &Vec<u32>) -> (r: Module)
    requires
        loadable(format@, data@),
        rates.len() == fasttracker2::TUNINGS,
    ensures
        r@ == loaded(format@, data@, rates@),
{
    if same_text(format, "protracker") {
        protracker::parse(data)
    } else {
        fasttracker2::parse(data, rates)
    }
}

} // verus!
