//! GPT partition declarations: types, attribute flags and device names.
use vstd::prelude::*;
use vstd::string::*;

use crate::text::{decimal, decimal_text, guid_text, guid_to_text, is_prefix, starts_with, str_eq};

verus! {

/// GPT partition types, a subset of the Discoverable Partitions Specification,
/// with an escape hatch for any other type GUID. This is not the filesystem.
#[derive(Clone, Copy, Debug, PartialEq, Eq, Structural)]
pub enum PartitionType {
    /// Root partition of the build's target architecture.
    Root,
    /// Root partition for ARM64.
    RootArm64,
    /// Root partition for x86_64.
    RootX86_64,
    /// EFI system partition.
    Esp,
    /// Extended boot loader partition, from the Boot Loader Specification.
    Xbootldr,
    /// Swap partition.
    Swap,
    /// A generic partition that carries a Linux filesystem.
    LinuxGeneric,
    /// MBR header partition for grub-install.
    BiosGrub,
    /// An arbitrary GPT partition type GUID, as its 128-bit big-endian value.
    Guid(u128),
}

/// GPT partition attribute flags.
#[derive(Clone, Copy, Debug, PartialEq, Eq, Structural)]
pub enum PartitionFlag {
    /// Disable auto discovery, preventing automatic mounting.
    NoAuto,
    /// Mount the partition read-only.
    ReadOnly,
    /// Grow the file system when it is mounted.
    GrowFs,
    /// An arbitrary GPT attribute bit position, valid from 0 to 63.
    FlagPosition(u8),
}

/// Why a partition declaration cannot be applied.
#[derive(Clone, Debug, PartialEq, Eq)]
pub enum LayoutError {
    /// A generic root partition was asked for on an architecture without a root type.
    UnsupportedArch(String),
    /// An explicit attribute bit position outside 0..=63.
    InvalidFlag(u8),
}

/// The error of an unsupported architecture, named by its text.
pub open spec fn is_arch_error(e: LayoutError, arch: Seq<char>) -> bool {
    match e {
        LayoutError::UnsupportedArch(a) => a@ == arch,
        _ => false,
    }
}

/// The type GUID of every type but `Root` and `Guid`.
pub open spec fn fixed_guid(t: PartitionType) -> Seq<char> {
    match t {
        PartitionType::RootArm64 => "b921b045-1df0-41c3-af44-4c6f280d3fae"@,
        PartitionType::RootX86_64 => "4f68bce3-e8cd-4db1-96e7-fbcaf984b709"@,
        PartitionType::Esp => "c12a7328-f81f-11d2-ba4b-00a0c93ec93b"@,
        PartitionType::Xbootldr => "bc13c2ff-59e6-4262-a352-b275fd6f7172"@,
        PartitionType::Swap => "0657fd6d-a4ab-43c4-84e5-0933c84b4f4f"@,
        PartitionType::LinuxGeneric => "0fc63daf-8483-4772-8e79-3d69d8477de4"@,
        PartitionType::BiosGrub => "21686148-6449-6E6F-744E-656564454649"@,
        _ => Seq::empty(),
    }
}

/// The GPT type GUID of a partition type on a target architecture; `None`
/// where `Root` has no counterpart on that architecture.
pub open spec fn type_guid(t: PartitionType, arch: Seq<char>) -> Option<Seq<char>> {
    match t {
        PartitionType::Root => if arch == "x86_64"@ {
            Some(fixed_guid(PartitionType::RootX86_64))
        } else if arch == "aarch64"@ {
            Some(fixed_guid(PartitionType::RootArm64))
        } else {
            None
        },
        PartitionType::Guid(v) => Some(guid_text(v)),
        _ => Some(fixed_guid(t)),
    }
}

/// The attribute bit position of a flag; `None` for an invalid explicit one.
pub open spec fn flag_bit(f: PartitionFlag) -> Option<u8> {
    match f {
        PartitionFlag::NoAuto => Some(63u8),
        PartitionFlag::ReadOnly => Some(60u8),
        PartitionFlag::GrowFs => Some(59u8),
        PartitionFlag::FlagPosition(p) => if p <= 63 {
            Some(p)
        } else {
            None
        },
    }
}

fn fixed_guid_text(t: PartitionType) -> (r: String)
    ensures
        r@ == fixed_guid(t),
{
    match t {
        PartitionType::RootArm64 => String::from_str("b921b045-1df0-41c3-af44-4c6f280d3fae"),
        PartitionType::RootX86_64 => String::from_str("4f68bce3-e8cd-4db1-96e7-fbcaf984b709"),
        PartitionType::Esp => String::from_str("c12a7328-f81f-11d2-ba4b-00a0c93ec93b"),
        PartitionType::Xbootldr => String::from_str("bc13c2ff-59e6-4262-a352-b275fd6f7172"),
        PartitionType::Swap => String::from_str("0657fd6d-a4ab-43c4-84e5-0933c84b4f4f"),
        PartitionType::LinuxGeneric => String::from_str("0fc63daf-8483-4772-8e79-3d69d8477de4"),
        PartitionType::BiosGrub => String::from_str("21686148-6449-6E6F-744E-656564454649"),
        _ => String::new(),
    }
}

impl PartitionType {
    /// The GPT partition type GUID for this type on `target_arch`.
    pub fn uuid(&self, target_arch: &str) -> (r: Result<String, LayoutError>)
        ensures
            match type_guid(*self, target_arch@) {
                Some(g) => r matches Ok(s) && s@ == g,
                None => r matches Err(e) && is_arch_error(e, target_arch@),
            },
    {
        match self {
            PartitionType::Root => {
                if str_eq(target_arch, "x86_64") {
                    Ok(fixed_guid_text(PartitionType::RootX86_64))
                } else if str_eq(target_arch, "aarch64") {
                    Ok(fixed_guid_text(PartitionType::RootArm64))
                } else {
                    Err(LayoutError::UnsupportedArch(String::from_str(target_arch)))
                }
            },
            PartitionType::Guid(v) => Ok(guid_to_text(*v)),
            _ => Ok(fixed_guid_text(*self)),
        }
    }
}

impl PartitionFlag {
    /// The GPT attribute bit position of this flag.
    pub fn flag_position(&self) -> (r: Result<u8, LayoutError>)
        ensures
            match flag_bit(*self) {
                Some(b) => r == Ok::<u8, LayoutError>(b),
                None => r matches Err(LayoutError::InvalidFlag(p)) && *self
                    == PartitionFlag::FlagPosition(p),
            },
    {
        match self {
            PartitionFlag::NoAuto => Ok(63),
            PartitionFlag::ReadOnly => Ok(60),
            PartitionFlag::GrowFs => Ok(59),
            PartitionFlag::FlagPosition(p) => if *p <= 63 {
                Ok(*p)
            } else {
                Err(LayoutError::InvalidFlag(*p))
            },
        }
    }
}

/// Disks whose names end in a digit, so that partitions carry a `p` before their number.
pub open spec fn needs_p_separator(disk: Seq<char>) -> bool {
    is_prefix("/dev/mmcblk"@, disk) || is_prefix("/dev/nvme"@, disk) || is_prefix(
        "/dev/loop"@,
        disk,
    )
}

/// The device path of the partition numbered `index` on `disk`.
pub open spec fn device_name(disk: Seq<char>, index: nat) -> Seq<char> {
    if needs_p_separator(disk) {
        disk + seq!['p'] + decimal(index)
    } else {
        disk + decimal(index)
    }
}

/// The device path of partition number `partition` on `disk`
/// (`/dev/sda` and 1 give `/dev/sda1`, `/dev/nvme0n1` and 1 give `/dev/nvme0n1p1`).
pub fn partition_name(disk: &str, partition: usize) -> (r: String)
    ensures
        r@ == device_name(disk@, partition as nat),
{
    let sep = starts_with(disk, "/dev/mmcblk") || starts_with(disk, "/dev/nvme") || starts_with(
        disk,
        "/dev/loop",
    );
    let mut r = String::from_str(disk);
    if sep {
        r.append("p");
    }
    let num = decimal_text(partition as u64);
    r.append(num.as_str());
    proof {
        reveal_strlit("p");
    }
    r
}

} // verus!
