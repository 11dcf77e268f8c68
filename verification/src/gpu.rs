//! The hardware that histograms are calculated on.
use vstd::prelude::*;
use vstd::string::StringExecFns;

use crate::text::{is_lower_ascii, lemma_trimmed_lower_ascii, lowercase, same_text, to_lowercase, trim, trimmed};

verus! {

/// Hardware execution target for histogram calculations.
#[derive(Debug, Clone, Copy, PartialEq, Eq, Structural)]
pub enum DevicePreference {
    /// Automatically select the fastest available device (GPU if available, else CPU).
    Auto,
    /// Multi-threaded CPU execution.
    Cpu,
    /// GPU execution using compute shaders.
    Gpu,
    /// Concurrent hybrid execution splitting chunks across CPU and GPU.
    Hybrid,
}

/// A device name that was not recognised, as it read once lowercased and
/// trimmed, and whether the hybrid mode was among the names expected.
#[derive(Debug)]
pub struct UnknownDevice {
    pub name: String,
    pub hybrid_allowed: bool,
}

/// The message for a device name that was not recognised, listing the names
/// that were expected.
pub open spec fn unknown_device_text(name: Seq<char>, hybrid_allowed: bool) -> Seq<char> {
    "Unknown device '"@ + name + if hybrid_allowed {
        "'. Expected 'auto', 'cpu', 'gpu', or 'hybrid'."@
    } else {
        "'. Expected 'auto', 'cpu', or 'gpu'."@
    }
}

impl UnknownDevice {
    /// The message saying which name was not recognised.
    pub fn message(&self) -> (r: String)
        ensures
            r@ == unknown_device_text(self.name@, self.hybrid_allowed),
    {
        let head: String = <String as StringExecFns>::from_str("Unknown device '");
        let with_name: String = head.concat(self.name.as_str());
        if self.hybrid_allowed {
            with_name.concat("'. Expected 'auto', 'cpu', 'gpu', or 'hybrid'.")
        } else {
            with_name.concat("'. Expected 'auto', 'cpu', or 'gpu'.")
        }
    }
}

/// The text a device name is compared in: lowercased, then trimmed.
pub open spec fn folded(s: Seq<char>) -> Seq<char> {
    trimmed(lowercase(s))
}

/// The four device names differ (already in their first letters).
proof fn lemma_device_names_distinct()
    ensures
        "auto"@ != "cpu"@,
        "auto"@ != "gpu"@,
        "auto"@ != "hybrid"@,
        "cpu"@ != "gpu"@,
        "cpu"@ != "hybrid"@,
        "gpu"@ != "hybrid"@,
{
    reveal_strlit("auto");
    reveal_strlit("cpu");
    reveal_strlit("gpu");
    reveal_strlit("hybrid");
    assert("auto"@[0] == 'a');
    assert("cpu"@[0] == 'c');
    assert("gpu"@[0] == 'g');
    assert("hybrid"@[0] == 'h');
}

/// The four device names are lowercase ASCII letters.
proof fn lemma_device_names_lower()
    ensures
        is_lower_ascii("auto"@),
        is_lower_ascii("cpu"@),
        is_lower_ascii("gpu"@),
        is_lower_ascii("hybrid"@),
{
    reveal_strlit("auto");
    reveal_strlit("cpu");
    reveal_strlit("gpu");
    reveal_strlit("hybrid");
}

impl DevicePreference {
    /// The device a name selects ('auto', 'cpu', 'gpu' or 'hybrid'), ignoring
    /// case and surrounding white space.
    pub fn from_str(s: &str) -> (r: Result<DevicePreference, UnknownDevice>)
        ensures
            folded(s@) == "auto"@ ==> r matches Ok(DevicePreference::Auto),
            folded(s@) == "cpu"@ ==> r matches Ok(DevicePreference::Cpu),
            folded(s@) == "gpu"@ ==> r matches Ok(DevicePreference::Gpu),
            folded(s@) == "hybrid"@ ==> r matches Ok(DevicePreference::Hybrid),
            folded(s@) != "auto"@ && folded(s@) != "cpu"@ && folded(s@) != "gpu"@ && folded(s@)
                != "hybrid"@ ==> (r matches Err(e) && e.name@ == folded(s@) && e.hybrid_allowed),
            // the canonical names read back as their devices
            s@ == "auto"@ ==> r matches Ok(DevicePreference::Auto),
            s@ == "cpu"@ ==> r matches Ok(DevicePreference::Cpu),
            s@ == "gpu"@ ==> r matches Ok(DevicePreference::Gpu),
            s@ == "hybrid"@ ==> r matches Ok(DevicePreference::Hybrid),
    {
        proof {
            lemma_device_names_distinct();
            lemma_device_names_lower();
        }
        let lower: String = to_lowercase(s);
        let name: &str = trim(lower.as_str());
        proof {
            if is_lower_ascii(s@) {
                lemma_trimmed_lower_ascii(lower@);
            }
        }
        if same_text(name, "auto") {
            Ok(DevicePreference::Auto)
        } else if same_text(name, "cpu") {
            Ok(DevicePreference::Cpu)
        } else if same_text(name, "gpu") {
            Ok(DevicePreference::Gpu)
        } else if same_text(name, "hybrid") {
            Ok(DevicePreference::Hybrid)
        } else {
            proof {
                broadcast use vstd::string::group_string_axioms;
            }
            Err(UnknownDevice { name: name.to_string(), hybrid_allowed: true })
        }
    }

    /// The canonical name of the device preference.
    pub fn as_str(&self) -> (r: &'static str)
        ensures
            *self == DevicePreference::Auto ==> r@ == "auto"@,
            *self == DevicePreference::Cpu ==> r@ == "cpu"@,
            *self == DevicePreference::Gpu ==> r@ == "gpu"@,
            *self == DevicePreference::Hybrid ==> r@ == "hybrid"@,
    {
        match self {
            DevicePreference::Auto => "auto",
            DevicePreference::Cpu => "cpu",
            DevicePreference::Gpu => "gpu",
            DevicePreference::Hybrid => "hybrid",
        }
    }

    /// The device that a data object can be set to run on: 'auto', 'cpu' or
    /// 'gpu' (the hybrid mode is not selectable there).
    pub fn from_str_selectable(s: &str) -> (r: Result<DevicePreference, UnknownDevice>)
        ensures
            folded(s@) == "auto"@ ==> r matches Ok(DevicePreference::Auto),
            folded(s@) == "cpu"@ ==> r matches Ok(DevicePreference::Cpu),
            folded(s@) == "gpu"@ ==> r matches Ok(DevicePreference::Gpu),
            folded(s@) != "auto"@ && folded(s@) != "cpu"@ && folded(s@) != "gpu"@ ==> r is Err,
            s@ == "auto"@ ==> r matches Ok(DevicePreference::Auto),
            s@ == "cpu"@ ==> r matches Ok(DevicePreference::Cpu),
            s@ == "gpu"@ ==> r matches Ok(DevicePreference::Gpu),
            s@ == "hybrid"@ ==> r is Err,
            r matches Err(e) ==> !e.hybrid_allowed,
            folded(s@) != "auto"@ && folded(s@) != "cpu"@ && folded(s@) != "gpu"@ && folded(s@)
                != "hybrid"@ ==> (r matches Err(e) && e.name@ == folded(s@)),
    {
        proof {
            lemma_device_names_distinct();
        }
        match DevicePreference::from_str(s) {
            Ok(DevicePreference::Hybrid) => {
                let name: String = "hybrid".to_string();
                Err(UnknownDevice { name, hybrid_allowed: false })
            },
            Err(e) => Err(UnknownDevice { name: e.name, hybrid_allowed: false }),
            other => other,
        }
    }
}

} // verus!
