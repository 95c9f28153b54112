//! What a replay program checks, compares and prints.

use vstd::prelude::*;
use vstd::string::StringExecFns;

use crate::downloader::DownloadPolicy;
use crate::replay::NativeFoyerKeyMode;
use crate::text::{append_number, decimal, same_text};

verus! {

/// Why the arguments of a replay are refused.
#[derive(Clone, Copy, Debug, PartialEq, Eq, Structural)]
pub enum ArgumentError {
    /// There is no capacity, or one is zero.
    Capacity,
    /// There is no shard count, or one is zero.
    Shards,
    /// There is no downloader.
    Downloader,
}

impl ArgumentError {
    /// Returns the error's message.
    pub fn message(self) -> (message: &'static str)
        ensures
            message@ == (match self {
                ArgumentError::Capacity => "--capacity values must be nonzero"@,
                ArgumentError::Shards => "--shards values must be nonzero"@,
                ArgumentError::Downloader => "at least one --downloader value is required"@,
            }),
    {
        match self {
            ArgumentError::Capacity => "--capacity values must be nonzero",
            ArgumentError::Shards => "--shards values must be nonzero",
            ArgumentError::Downloader => "at least one --downloader value is required",
        }
    }
}

/// Whether there are values, and none is zero.
pub open spec fn all_nonzero(values: Seq<usize>) -> bool {
    &&& values.len() > 0
    &&& forall|i: int| 0 <= i < values.len() ==> #[trigger] values[i] != 0
}

/// Returns whether there are values, and none is zero.
pub fn are_nonzero(values: &Vec<usize>) -> (nonzero: bool)
    ensures
        nonzero == all_nonzero(values@),
        nonzero <==> values@.len() > 0 && !values@.contains(0),
{
    let mut index: usize = 0;
    while index < values.len()
        invariant
            index <= values@.len(),
            forall|i: int| 0 <= i < index ==> #[trigger] values@[i] != 0,
        decreases values.len() - index,
    {
        if values[index] == 0 {
            assert(values@[index as int] == 0);
            return false;
        }
        index += 1;
    }
    values.len() > 0
}

/// Checks the values that a replay is run for.
pub fn check_arguments(
    capacities: &Vec<usize>,
    shards: &Vec<usize>,
    downloaders: &Vec<DownloadPolicy>,
) -> (result: Result<(), ArgumentError>)
    ensures
        match result {
            Ok(_) => {
                &&& all_nonzero(capacities@)
                &&& all_nonzero(shards@)
                &&& downloaders@.len() > 0
            },
            Err(ArgumentError::Capacity) => !all_nonzero(capacities@),
            Err(ArgumentError::Shards) => all_nonzero(capacities@) && !all_nonzero(shards@),
            Err(ArgumentError::Downloader) => {
                &&& all_nonzero(capacities@)
                &&& all_nonzero(shards@)
                &&& downloaders@.len() == 0
            },
        },
        result is Ok <==> {
            &&& capacities@.len() > 0 && !capacities@.contains(0)
            &&& shards@.len() > 0 && !shards@.contains(0)
            &&& downloaders@.len() > 0
        },
{
    if !are_nonzero(capacities) {
        return Err(ArgumentError::Capacity);
    }
    if !are_nonzero(shards) {
        return Err(ArgumentError::Shards);
    }
    if downloaders.len() == 0 {
        return Err(ArgumentError::Downloader);
    }
    Ok(())
}

/// Returns how the exactly keyed caches that a downloader is replayed against
/// are keyed: by expanded downloads too where there are any.
pub fn compared_key_modes(downloader: DownloadPolicy) -> (modes: Vec<NativeFoyerKeyMode>)
    ensures
        modes@ == (match downloader {
            DownloadPolicy::Expanded => seq![
                NativeFoyerKeyMode::ExactRequest,
                NativeFoyerKeyMode::ExpandedDownload,
            ],
            DownloadPolicy::Exact => seq![NativeFoyerKeyMode::ExactRequest],
        }),
{
    let mut modes: Vec<NativeFoyerKeyMode> = Vec::new();
    modes.push(NativeFoyerKeyMode::ExactRequest);
    match downloader {
        DownloadPolicy::Expanded => {
            modes.push(NativeFoyerKeyMode::ExpandedDownload);
        },
        DownloadPolicy::Exact => {},
    }
    assert(modes@ =~= (match downloader {
        DownloadPolicy::Expanded => seq![
            NativeFoyerKeyMode::ExactRequest,
            NativeFoyerKeyMode::ExpandedDownload,
        ],
        DownloadPolicy::Exact => seq![NativeFoyerKeyMode::ExactRequest],
    }));
    modes
}

/// The name that a table prints for an engine.
pub open spec fn table_name(engine: Seq<char>) -> Seq<char> {
    if engine == "feuer-value-aware"@ {
        "Feuer"@
    } else if engine == "foyer-native-exact-key"@ {
        "Foyer"@
    } else if engine == "foyer-native-expanded-key"@ {
        "Foyer (expanded key)"@
    } else {
        engine
    }
}

/// Returns the name that a table prints for an engine.
pub fn human_engine_name(engine: &str) -> (name: &str)
    ensures
        name@ == table_name(engine@),
        engine@ == "feuer-value-aware"@ ==> name@ == "Feuer"@,
        engine@ == "foyer-native-exact-key"@ ==> name@ == "Foyer"@,
        engine@ == "foyer-native-expanded-key"@ ==> name@ == "Foyer (expanded key)"@,
        engine@ != "feuer-value-aware"@ && engine@ != "foyer-native-exact-key"@ && engine@
            != "foyer-native-expanded-key"@ ==> name@ == engine@,
{
    proof {
        reveal_strlit("feuer-value-aware");
        reveal_strlit("foyer-native-exact-key");
        reveal_strlit("foyer-native-expanded-key");
        assert("feuer-value-aware"@.len() == 17);
        assert("foyer-native-exact-key"@.len() == 22);
        assert("foyer-native-expanded-key"@.len() == 25);
    }
    if same_text(engine, "feuer-value-aware") {
        "Feuer"
    } else if same_text(engine, "foyer-native-exact-key") {
        "Foyer"
    } else if same_text(engine, "foyer-native-expanded-key") {
        "Foyer (expanded key)"
    } else {
        engine
    }
}

/// A byte count as it is printed.
#[derive(Clone, Debug, PartialEq, Eq)]
pub enum ByteText {
    /// A whole number of units.
    Whole(String),
    /// Not a whole number of units: the count is divided by `unit_bytes`.
    Fraction {
        unit_bytes: u64,
        suffix: &'static str,
    },
}

/// The largest of three units that is not larger than a byte count, if any.
pub open spec fn unit_for(bytes: u64, giga: u64, mega: u64, kilo: u64) -> Option<u64> {
    if bytes >= giga {
        Some(giga)
    } else if bytes >= mega {
        Some(mega)
    } else if bytes >= kilo {
        Some(kilo)
    } else {
        None
    }
}

/// Whether `text` prints `bytes` in the unit, or without one.
pub open spec fn prints(text: ByteText, bytes: u64, unit: Option<u64>, name: Seq<char>) -> bool {
    match unit {
        Some(unit) => if bytes % unit == 0 {
            text matches ByteText::Whole(whole) && whole@ == decimal((bytes / unit) as nat) + " "@
                + name
        } else {
            text matches ByteText::Fraction { unit_bytes, suffix } && unit_bytes == unit
                && suffix@ == name
        },
        None => text matches ByteText::Whole(whole) && whole@ == decimal(bytes as nat) + " B"@,
    }
}

/// Prints a byte count in one unit.
fn print_in(bytes: u64, unit_bytes: u64, suffix: &'static str) -> (text: ByteText)
    requires
        unit_bytes > 0,
    ensures
        prints(text, bytes, Some(unit_bytes), suffix@),
{
    if bytes % unit_bytes == 0 {
        let mut whole = "".to_owned();
        proof {
            reveal_strlit("");
        }
        append_number(&mut whole, bytes / unit_bytes);
        whole.append(" ");
        whole.append(suffix);
        assert(whole@ =~= decimal((bytes / unit_bytes) as nat) + " "@ + suffix@);
        ByteText::Whole(whole)
    } else {
        ByteText::Fraction { unit_bytes, suffix }
    }
}

/// Prints a byte count that is below every unit.
fn print_plain(bytes: u64) -> (text: ByteText)
    ensures
        prints(text, bytes, None, seq![]),
{
    let mut whole = "".to_owned();
    proof {
        reveal_strlit("");
    }
    append_number(&mut whole, bytes);
    whole.append(" B");
    assert(whole@ =~= decimal(bytes as nat) + " B"@);
    ByteText::Whole(whole)
}

/// Prints a byte count in the largest decimal unit that it reaches.
pub fn format_decimal_bytes(bytes: u64) -> (text: ByteText)
    ensures
        ({
            let unit = unit_for(bytes, 1_000_000_000, 1_000_000, 1_000);
            let name = if bytes >= 1_000_000_000 {
                "GB"@
            } else if bytes >= 1_000_000 {
                "MB"@
            } else {
                "KB"@
            };
            prints(text, bytes, unit, name)
        }),
        bytes < 1000 ==> (text matches ByteText::Whole(whole) && whole@ == decimal(bytes as nat)
            + " B"@),
        1_000 <= bytes < 1_000_000 && bytes % 1_000 == 0
            ==> (text matches ByteText::Whole(whole) && whole@
            == decimal((bytes / 1_000) as nat) + " "@ + "KB"@),
        1_000 <= bytes < 1_000_000 && bytes % 1_000 != 0
            ==> (text matches ByteText::Fraction {
            unit_bytes,
            suffix,
        } && unit_bytes == 1_000 && suffix@ == "KB"@),
        1_000_000 <= bytes < 1_000_000_000 && bytes % 1_000_000 == 0
            ==> (text matches ByteText::Whole(whole) && whole@
            == decimal((bytes / 1_000_000) as nat) + " "@ + "MB"@),
        1_000_000 <= bytes < 1_000_000_000 && bytes % 1_000_000 != 0
            ==> (text matches ByteText::Fraction {
            unit_bytes,
            suffix,
        } && unit_bytes == 1_000_000 && suffix@ == "MB"@),
        1_000_000_000 <= bytes && bytes % 1_000_000_000 == 0
            ==> (text matches ByteText::Whole(whole) && whole@
            == decimal((bytes / 1_000_000_000) as nat) + " "@ + "GB"@),
        1_000_000_000 <= bytes && bytes % 1_000_000_000 != 0
            ==> (text matches ByteText::Fraction {
            unit_bytes,
            suffix,
        } && unit_bytes == 1_000_000_000 && suffix@ == "GB"@),
{
    if bytes >= 1_000_000_000 {
        print_in(bytes, 1_000_000_000, "GB")
    } else if bytes >= 1_000_000 {
        print_in(bytes, 1_000_000, "MB")
    } else if bytes >= 1_000 {
        print_in(bytes, 1_000, "KB")
    } else {
        print_plain(bytes)
    }
}

/// Prints a byte count in the largest binary unit that it reaches.
pub fn format_bytes(bytes: u64) -> (text: ByteText)
    ensures
        ({
            let unit = unit_for(bytes, 1_073_741_824, 1_048_576, 1_024);
            let name = if bytes >= 1_073_741_824 {
                "GiB"@
            } else if bytes >= 1_048_576 {
                "MiB"@
            } else {
                "KiB"@
            };
            prints(text, bytes, unit, name)
        }),
        bytes < 1024 ==> (text matches ByteText::Whole(whole) && whole@ == decimal(bytes as nat)
            + " B"@),
        1_024 <= bytes < 1_048_576 && bytes % 1_024 == 0
            ==> (text matches ByteText::Whole(whole) && whole@
            == decimal((bytes / 1_024) as nat) + " "@ + "KiB"@),
        1_024 <= bytes < 1_048_576 && bytes % 1_024 != 0
            ==> (text matches ByteText::Fraction {
            unit_bytes,
            suffix,
        } && unit_bytes == 1_024 && suffix@ == "KiB"@),
        1_048_576 <= bytes < 1_073_741_824 && bytes % 1_048_576 == 0
            ==> (text matches ByteText::Whole(whole) && whole@
            == decimal((bytes / 1_048_576) as nat) + " "@ + "MiB"@),
        1_048_576 <= bytes < 1_073_741_824 && bytes % 1_048_576 != 0
            ==> (text matches ByteText::Fraction {
            unit_bytes,
            suffix,
        } && unit_bytes == 1_048_576 && suffix@ == "MiB"@),
        1_073_741_824 <= bytes && bytes % 1_073_741_824 == 0
            ==> (text matches ByteText::Whole(whole) && whole@
            == decimal((bytes / 1_073_741_824) as nat) + " "@ + "GiB"@),
        1_073_741_824 <= bytes && bytes % 1_073_741_824 != 0
            ==> (text matches ByteText::Fraction {
            unit_bytes,
            suffix,
        } && unit_bytes == 1_073_741_824 && suffix@ == "GiB"@),
{
    if bytes >= 1_073_741_824 {
        print_in(bytes, 1_073_741_824, "GiB")
    } else if bytes >= 1_048_576 {
        print_in(bytes, 1_048_576, "MiB")
    } else if bytes >= 1_024 {
        print_in(bytes, 1_024, "KiB")
    } else {
        print_plain(bytes)
    }
}

} // verus!
