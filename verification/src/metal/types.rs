//! Formats, placements, errors and device information.

use vstd::prelude::*;
use vstd::string::*;
use crate::gguf::GgmlType;
use crate::text::joined;

verus! {

#[derive(Debug, Clone, Copy, PartialEq, Eq, Structural)]
pub enum Quantization {
    /// 4-bit quantization (block-based).
    Q4_0,
    /// 4-bit K-quantization (Super-block).
    Q4K,
    /// 32-bit floating point.
    F32,
    /// 16-bit floating point.
    F16,
    /// 8-bit quantization.
    Q8K,
}

impl Default for Quantization {
    fn default() -> (q: Self)
        ensures
            q == Quantization::Q4_0,
    {
        Quantization::Q4_0
    }
}

/// An ASCII letter in upper case; any other character as it is.
pub open spec fn upper(c: char) -> char {
    if 'a' <= c && c <= 'z' {
        (c as u32 - 32) as char
    } else {
        c
    }
}

pub open spec fn lower(c: char) -> char {
    if 'A' <= c && c <= 'Z' {
        (c as u32 + 32) as char
    } else {
        c
    }
}

/// Whether a text is `name`, whatever the case of its letters.
pub open spec fn spells(s: Seq<char>, name: Seq<char>) -> bool {
    s.map_values(|c: char| upper(c)) == name
}

fn to_upper(c: char) -> (u: char)
    ensures
        u == upper(c),
{
    if 'a' <= c && c <= 'z' {
        let code: u32 = c as u32;
        (code as u8 - 32) as char
    } else {
        c
    }
}

/// The letters of a text in upper case.
fn uppercased(s: &str) -> (u: String)
    ensures
        u@ == s@.map_values(|c: char| upper(c)),
{
    let mut u = String::new();
    let n: usize = s.unicode_len();
    let mut i: usize = 0;
    while i < n
        invariant
            i <= n == s@.len(),
            u@ == s@.take(i as int).map_values(|c: char| upper(c)),
        decreases n - i,
    {
        u.push(to_upper(s.get_char(i)));
        i = i + 1;
        assert(u@ =~= s@.take(i as int).map_values(|c: char| upper(c)));
    }
    assert(s@.take(i as int) =~= s@);
    u
}

/// The format that a text names.
pub open spec fn quantization_named(s: Seq<char>) -> Option<Quantization> {
    if spells(s, "Q4_0"@) {
        Some(Quantization::Q4_0)
    } else if spells(s, "Q4K"@) || spells(s, "Q4_K"@) {
        Some(Quantization::Q4K)
    } else if spells(s, "F32"@) {
        Some(Quantization::F32)
    } else if spells(s, "F16"@) {
        Some(Quantization::F16)
    } else if spells(s, "Q8K"@) || spells(s, "Q8_K"@) {
        Some(Quantization::Q8K)
    } else {
        None
    }
}

impl Quantization {
    /// The format that a text names, whatever the case of its letters.
    pub fn from_str(s: &str) -> (r: Result<Quantization, String>)
        ensures
            match quantization_named(s@) {
                Some(q) => r is Ok && r->Ok_0 == q,
                None => r is Err && r->Err_0@ == "unknown quantization: "@ + s@,
            },
    {
        let name: String = uppercased(s);
        if name == String::from_str("Q4_0") {
            Ok(Quantization::Q4_0)
        } else if name == String::from_str("Q4K") || name == String::from_str("Q4_K") {
            Ok(Quantization::Q4K)
        } else if name == String::from_str("F32") {
            Ok(Quantization::F32)
        } else if name == String::from_str("F16") {
            Ok(Quantization::F16)
        } else if name == String::from_str("Q8K") || name == String::from_str("Q8_K") {
            Ok(Quantization::Q8K)
        } else {
            Err(joined("unknown quantization: ", s))
        }
    }

    /// Values in a block of this format.
    pub open spec fn block(self) -> usize {
        match self {
            Quantization::F32 | Quantization::F16 => 1,
            _ => 32,
        }
    }

    pub fn block_size(&self) -> (n: usize)
        ensures
            n == self.block(),
    {
        match self {
            Quantization::F32 | Quantization::F16 => 1,
            Quantization::Q4_0 | Quantization::Q4K | Quantization::Q8K => 32,
        }
    }

    pub open spec fn name(self) -> Seq<char> {
        match self {
            Quantization::Q4_0 => "Q4_0"@,
            Quantization::Q4K => "Q4_K"@,
            Quantization::F32 => "F32"@,
            Quantization::F16 => "F16"@,
            Quantization::Q8K => "Q8_K"@,
        }
    }

    pub fn format_name(&self) -> (s: &'static str)
        ensures
            s@ == self.name(),
    {
        match self {
            Quantization::Q4_0 => "Q4_0",
            Quantization::Q4K => "Q4_K",
            Quantization::F32 => "F32",
            Quantization::F16 => "F16",
            Quantization::Q8K => "Q8_K",
        }
    }

    /// The format of a file type, where there is one.
    pub fn from_ggml(dtype: GgmlType) -> (q: Option<Self>)
        ensures
            q == (match dtype {
                GgmlType::F32 => Some(Quantization::F32),
                GgmlType::F16 => Some(Quantization::F16),
                GgmlType::Q4_0 => Some(Quantization::Q4_0),
                GgmlType::Q4K => Some(Quantization::Q4K),
                GgmlType::Q8K => Some(Quantization::Q8K),
                _ => None,
            }),
    {
        match dtype {
            GgmlType::F32 => Some(Quantization::F32),
            GgmlType::F16 => Some(Quantization::F16),
            GgmlType::Q4_0 => Some(Quantization::Q4_0),
            GgmlType::Q4K => Some(Quantization::Q4K),
            GgmlType::Q8K => Some(Quantization::Q8K),
            _ => None,
        }
    }
}

/// The name of a format is read back as that format, in upper case, in lower case
/// and in any other.
pub proof fn names_are_read_back(q: Quantization)
    ensures
        quantization_named(q.name()) == Some(q),
        quantization_named(q.name().map_values(|c: char| lower(c))) == Some(q),
        forall|s: Seq<char>| #[trigger]
            spells(s, q.name()) ==> quantization_named(s) == Some(q),
{
    reveal_strlit("Q4_0");
    reveal_strlit("Q4_K");
    reveal_strlit("Q4K");
    reveal_strlit("F32");
    reveal_strlit("F16");
    reveal_strlit("Q8_K");
    reveal_strlit("Q8K");
    let s = q.name();
    let u = s.map_values(|c: char| upper(c));
    assert(u =~= s);
    let small = s.map_values(|c: char| lower(c));
    assert(small.map_values(|c: char| upper(c)) =~= s);
    assert("Q4_0"@[3] == '0');
    assert("Q4_K"@[3] == 'K');
    assert("Q8_K"@[1] == '8');
    assert("Q4_K"@[1] == '4');
    assert("F32"@[1] == '3');
    assert("F16"@[1] == '1');
    assert("Q4K"@.len() == 3);
    assert("Q4K"@[0] == 'Q');
}

/// Placement strategy for Metal buffers.
#[derive(Debug, Clone, Copy, PartialEq, Eq, Structural)]
pub enum MetalBufferPlacement {
    /// Unified memory (shared between CPU and GPU). Default for Apple Silicon.
    Unified,
    /// GPU-private memory.
    Private,
}

#[derive(Debug, Clone, PartialEq, Eq)]
pub enum MetalError {
    DeviceNotFound,
    LibraryError(String),
    PipelineError(String),
}

impl MetalError {
    pub open spec fn text(self) -> Seq<char> {
        match self {
            MetalError::DeviceNotFound => "Metal device not found"@,
            MetalError::LibraryError(s) => "Metal library error: "@ + s@,
            MetalError::PipelineError(s) => "Metal pipeline error: "@ + s@,
        }
    }

    pub fn to_string(&self) -> (s: String)
        ensures
            s@ == self.text(),
    {
        match self {
            MetalError::DeviceNotFound => String::from_str("Metal device not found"),
            MetalError::LibraryError(e) => joined("Metal library error: ", e.as_str()),
            MetalError::PipelineError(e) => joined("Metal pipeline error: ", e.as_str()),
        }
    }
}

/// Information about the Metal hardware.
#[derive(Debug, Clone, PartialEq, Eq)]
pub struct MetalDeviceInfo {
    /// Human-readable name of the GPU (e.g., "Apple M3 Max").
    pub name: String,
    /// Whether the device supports unified memory architecture.
    pub unified_memory: bool,
}

/// Which parts of a device have been opened.
#[derive(Debug, Clone, Copy, PartialEq, Eq, Structural)]
pub struct DeviceParts {
    pub device: bool,
    pub command_queue: bool,
    pub library: bool,
}


/// A format that is not quantized keeps its values one by one, as the tensors of a file
/// do, and the quantized formats have blocks of one size, that of the files' smallest.
pub proof fn blocks_are_those_of_the_files(q: Quantization)
    ensures
        q is F32 ==> q.block() == GgmlType::F32.block_elems(),
        q is F16 ==> q.block() == GgmlType::F16.block_elems(),
        !(q is F32) && !(q is F16) ==> q.block() == GgmlType::Q4_0.block_elems(),
{
}
} // verus!
