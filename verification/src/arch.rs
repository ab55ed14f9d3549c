use crate::text::str_eq;
use vstd::prelude::*;

verus! {

/// `e_machine` of an ELF object for the Intel 80386.
pub const EM_386: u16 = 3;

/// `e_machine` of an ELF object for 32-bit ARM.
pub const EM_ARM: u16 = 40;

/// `e_machine` of an ELF object for AMD x86-64.
pub const EM_X86_64: u16 = 62;

/// `e_machine` of an ELF object for 64-bit ARM.
pub const EM_AARCH64: u16 = 183;

/// A processor architecture that a container can name. On the wire it is one
/// byte, 1 to 4; 0 names none.
#[derive(Clone, Copy, Debug, PartialEq, Eq, Structural)]
pub enum Architecture {
    X86,
    X86_64,
    ARMv7,
    Aarch64,
}

impl Architecture {
    /// The byte that stands for the architecture on the wire.
    pub open spec fn spec_byte(self) -> u8 {
        match self {
            Architecture::X86 => 1,
            Architecture::X86_64 => 2,
            Architecture::ARMv7 => 3,
            Architecture::Aarch64 => 4,
        }
    }

    /// The architecture that a wire byte stands for, if any.
    pub open spec fn spec_from_byte(value: u8) -> Option<Architecture> {
        if value == 1 {
            Some(Architecture::X86)
        } else if value == 2 {
            Some(Architecture::X86_64)
        } else if value == 3 {
            Some(Architecture::ARMv7)
        } else if value == 4 {
            Some(Architecture::Aarch64)
        } else {
            None
        }
    }

    /// The architecture of an ELF machine number, if it is one of the four.
    pub open spec fn spec_from_machine(machine: u16) -> Option<Architecture> {
        if machine == EM_386 {
            Some(Architecture::X86)
        } else if machine == EM_X86_64 {
            Some(Architecture::X86_64)
        } else if machine == EM_ARM {
            Some(Architecture::ARMv7)
        } else if machine == EM_AARCH64 {
            Some(Architecture::Aarch64)
        } else {
            None
        }
    }

    /// The architecture that a host of the given name has, if it is one of
    /// the four: `x86`, `x86_64`, `arm` or `aarch64`.
    pub open spec fn spec_from_host_name(name: Seq<char>) -> Option<Architecture> {
        if name == "x86_64"@ {
            Some(Architecture::X86_64)
        } else if name == "x86"@ {
            Some(Architecture::X86)
        } else if name == "arm"@ {
            Some(Architecture::ARMv7)
        } else if name == "aarch64"@ {
            Some(Architecture::Aarch64)
        } else {
            None
        }
    }

    /// The architecture of a host of the given name.
    pub fn from_host_name(name: &str) -> (r: Option<Architecture>)
        ensures
            r == Self::spec_from_host_name(name@),
    {
        if str_eq(name, "x86_64") {
            Some(Architecture::X86_64)
        } else if str_eq(name, "x86") {
            Some(Architecture::X86)
        } else if str_eq(name, "arm") {
            Some(Architecture::ARMv7)
        } else if str_eq(name, "aarch64") {
            Some(Architecture::Aarch64)
        } else {
            None
        }
    }

    /// The byte that stands for the architecture on the wire.
    pub fn to_byte(self) -> (b: u8)
        ensures
            b == self.spec_byte(),
            1 <= b <= 4,
    {
        match self {
            Architecture::X86 => 1,
            Architecture::X86_64 => 2,
            Architecture::ARMv7 => 3,
            Architecture::Aarch64 => 4,
        }
    }

    /// The architecture that a wire byte stands for.
    pub fn from_byte(value: u8) -> (r: Option<Architecture>)
        ensures
            r == Self::spec_from_byte(value),
    {
        match value {
            1 => Some(Architecture::X86),
            2 => Some(Architecture::X86_64),
            3 => Some(Architecture::ARMv7),
            4 => Some(Architecture::Aarch64),
            _ => None,
        }
    }

    /// The architecture of an ELF machine number.
    pub fn from_machine(machine: u16) -> (r: Option<Architecture>)
        ensures
            r == Self::spec_from_machine(machine),
    {
        if machine == EM_386 {
            Some(Architecture::X86)
        } else if machine == EM_X86_64 {
            Some(Architecture::X86_64)
        } else if machine == EM_ARM {
            Some(Architecture::ARMv7)
        } else if machine == EM_AARCH64 {
            Some(Architecture::Aarch64)
        } else {
            None
        }
    }

    /// Reading back the byte of an architecture gives that architecture, and
    /// a byte that reads as an architecture is that architecture's byte.
    pub proof fn lemma_byte_round_trip(self, value: u8)
        ensures
            Self::spec_from_byte(self.spec_byte()) == Some(self),
            Self::spec_from_byte(value) == Some(self) ==> self.spec_byte() == value,
    {
    }
}

impl From<Architecture> for u8 {
    fn from(arch: Architecture) -> (b: u8) {
        arch.to_byte()
    }
}

impl vstd::std_specs::convert::FromSpecImpl<Architecture> for u8 {
    open spec fn obeys_from_spec() -> bool {
        true
    }

    open spec fn from_spec(arch: Architecture) -> u8 {
        arch.spec_byte()
    }
}

impl TryFrom<u8> for Architecture {
    type Error = &'static str;

    fn try_from(value: u8) -> (r: Result<Architecture, &'static str>) {
        match Architecture::from_byte(value) {
            Some(a) => Ok(a),
            None => Err("Invalid architecture value"),
        }
    }
}

impl vstd::std_specs::convert::TryFromSpecImpl<u8> for Architecture {
    open spec fn obeys_try_from_spec() -> bool {
        true
    }

    open spec fn try_from_spec(value: u8) -> Result<Architecture, &'static str> {
        match Architecture::spec_from_byte(value) {
            Some(a) => Ok(a),
            None => Err("Invalid architecture value"),
        }
    }
}

} // verus!
