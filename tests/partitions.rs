use katsu_layout::layout::{
    render_fstab, FormatKind, Partition, PartitionLayout, PartBound, FSTAB_HEADER, MIB,
};
use katsu_layout::partition::{partition_name, LayoutError, PartitionFlag, PartitionType};

fn simple(fs: &str, mp: &str, size: Option<u64>) -> Partition {
    Partition {
        label: None,
        partition_type: PartitionType::LinuxGeneric,
        flags: None,
        size,
        filesystem: fs.to_string(),
        mountpoint: mp.to_string(),
        subvolumes: vec![],
    }
}

fn layout(parts: Vec<Partition>) -> PartitionLayout {
    let mut l = PartitionLayout::new();
    for p in parts {
        l.add_partition(p);
    }
    l
}

#[test]
fn flag_positions_named_and_numeric() {
    assert_eq!(PartitionFlag::ReadOnly.flag_position(), Ok(60));
    assert_eq!(PartitionFlag::GrowFs.flag_position(), Ok(59));
    assert_eq!(PartitionFlag::NoAuto.flag_position(), Ok(63));
    assert_eq!(PartitionFlag::FlagPosition(0).flag_position(), Ok(0));
    assert_eq!(PartitionFlag::FlagPosition(63).flag_position(), Ok(63));
    assert_eq!(PartitionFlag::FlagPosition(70).flag_position(), Err(LayoutError::InvalidFlag(70)));
    assert_eq!(PartitionFlag::FlagPosition(64).flag_position(), Err(LayoutError::InvalidFlag(64)));
}

#[test]
fn type_guids_by_arch() {
    assert_eq!(
        PartitionType::Root.uuid("x86_64").unwrap(),
        "4f68bce3-e8cd-4db1-96e7-fbcaf984b709"
    );
    assert_eq!(
        PartitionType::Root.uuid("aarch64").unwrap(),
        "b921b045-1df0-41c3-af44-4c6f280d3fae"
    );
    assert_eq!(
        PartitionType::Root.uuid("riscv64"),
        Err(LayoutError::UnsupportedArch("riscv64".to_string()))
    );
    assert_eq!(
        PartitionType::Esp.uuid("riscv64").unwrap(),
        "c12a7328-f81f-11d2-ba4b-00a0c93ec93b"
    );
    assert_eq!(
        PartitionType::BiosGrub.uuid("x86_64").unwrap(),
        "21686148-6449-6E6F-744E-656564454649"
    );
}

#[test]
fn guid_type_prints_hyphenated() {
    let g = PartitionType::Guid(0x0123_4567_89ab_cdef_0011_2233_4455_6677);
    assert_eq!(g.uuid("x86_64").unwrap(), "01234567-89ab-cdef-0011-223344556677");
    assert_eq!(PartitionType::Guid(0).uuid("x").unwrap(), "00000000-0000-0000-0000-000000000000");
    assert_eq!(
        PartitionType::Guid(u128::MAX).uuid("x").unwrap(),
        "ffffffff-ffff-ffff-ffff-ffffffffffff"
    );
}

#[test]
fn device_names_with_larger_numbers() {
    assert_eq!(partition_name("/dev/sda", 12), "/dev/sda12");
    assert_eq!(partition_name("/dev/nvme0n1", 10), "/dev/nvme0n1p10");
    assert_eq!(partition_name("/dev/vda", 0), "/dev/vda0");
}

#[test]
fn sort_puts_empty_then_root_then_depth_then_text() {
    let l = layout(vec![
        simple("ext4", "/var/log", None),
        simple("ext4", "/home", None),
        simple("swap", "", None),
        simple("ext4", "/boot/", None),
        simple("ext4", "/", None),
    ]);
    let order: Vec<usize> = l.sort_partitions().iter().map(|(i, _)| *i).collect();
    assert_eq!(order, vec![3, 5, 4, 2, 1]);
}

#[test]
fn equal_mountpoints_keep_declaration_order() {
    let l = layout(vec![simple("none", "-", None), simple("swap", "-", None), simple("ext4", "/", None)]);
    let order: Vec<usize> = l.sort_partitions().iter().map(|(i, _)| *i).collect();
    assert_eq!(order, vec![3, 1, 2]);
}

#[test]
fn mount_plan_skips_unmounted_and_numbers_by_declaration() {
    let l = layout(vec![
        simple("efi", "/boot/efi", Some(100 * MIB)),
        simple("swap", "-", Some(100 * MIB)),
        simple("ext4", "/", None),
    ]);
    let plan = l.mount_plan("/dev/nvme0n1");
    let got: Vec<(String, String)> = plan.into_iter().map(|s| (s.device, s.target)).collect();
    assert_eq!(
        got,
        vec![
            ("/dev/nvme0n1p3".to_string(), "".to_string()),
            ("/dev/nvme0n1p1".to_string(), "boot/efi".to_string()),
        ]
    );
}

#[test]
fn unmount_is_reverse_of_mount() {
    let l = layout(vec![
        simple("efi", "/boot/efi", None),
        simple("ext4", "/boot", None),
        simple("none", "/data", None),
        simple("ext4", "/", None),
        simple("ext4", "/home", None),
    ]);
    let mut mounted: Vec<String> = l.mount_plan("/dev/sda").into_iter().map(|s| s.target).collect();
    mounted.reverse();
    assert_eq!(l.unmount_plan(), mounted);
    assert_eq!(l.unmount_plan(), vec!["boot/efi", "home", "boot", ""]);
}

#[test]
fn empty_layout_has_empty_plans() {
    let l = PartitionLayout::new();
    assert!(l.sort_partitions().is_empty());
    assert!(l.mount_plan("/dev/sda").is_empty());
    assert!(l.unmount_plan().is_empty());
    assert_eq!(l.apply_plan("/dev/sda", "x86_64").unwrap().len(), 0);
}

#[test]
fn fstab_entries_and_text() {
    let l = layout(vec![
        simple("efi", "/boot/efi", None),
        simple("swap", "-", None),
        simple("ext4", "/", None),
    ]);
    let entries = l.fstab_entries();
    assert_eq!(entries.len(), 2);
    assert_eq!(entries[0].mountpoint, "/");
    assert_eq!(entries[0].fsname, "ext4");
    assert_eq!(entries[0].fsck, 2);
    assert_eq!(entries[1].target, "boot/efi");
    assert_eq!(entries[1].fsname, "vfat");
    assert_eq!(entries[1].fsck, 0);
    let text = render_fstab(&entries, &vec!["aaaa".to_string(), "BB-CC".to_string()]);
    let expected = format!(
        "{FSTAB_HEADER}UUID=aaaa\t/\text4\tdefaults\t0\t2\nUUID=BB-CC\t/boot/efi\tvfat\tdefaults\t0\t0\n"
    );
    assert_eq!(text, expected);
}

#[test]
fn apply_plan_offsets_in_mib() {
    let mut efi = simple("efi", "/boot/efi", Some(100 * MIB));
    efi.label = Some("EFI".to_string());
    efi.partition_type = PartitionType::Esp;
    efi.flags = Some(vec![PartitionFlag::NoAuto, PartitionFlag::FlagPosition(2)]);
    let boot = simple("ext4", "/boot", Some(1024 * MIB + 512 * 1024));
    let mut root = simple("xfs", "/", None);
    root.partition_type = PartitionType::Root;
    let l = layout(vec![efi, boot, root]);
    let plan = l.apply_plan("/dev/loop0", "aarch64").unwrap();
    assert_eq!(plan.len(), 3);
    assert_eq!(plan[0].index, 1);
    assert_eq!(plan[0].device, "/dev/loop0p1");
    assert_eq!(plan[0].start, PartBound::Zero);
    assert_eq!(plan[0].end, PartBound::MiB(100));
    assert_eq!(plan[0].attribute_bits, vec![63, 2]);
    assert!(plan[0].esp);
    assert_eq!(plan[0].label.as_deref(), Some("EFI"));
    assert_eq!(plan[0].format, FormatKind::Fat32);
    assert_eq!(plan[0].type_guid, "c12a7328-f81f-11d2-ba4b-00a0c93ec93b");
    assert_eq!(plan[1].start, PartBound::MiB(100));
    assert_eq!(plan[1].end, PartBound::MiB(1124));
    assert_eq!(plan[1].format, FormatKind::Mkfs("ext4".to_string()));
    assert!(!plan[1].esp);
    assert_eq!(plan[2].start, PartBound::MiB(1124));
    assert_eq!(plan[2].end, PartBound::Full);
    assert_eq!(plan[2].type_guid, "b921b045-1df0-41c3-af44-4c6f280d3fae");
    assert_eq!(plan[2].device, "/dev/loop0p3");
}

#[test]
fn apply_plan_reports_first_failure() {
    let mut a = simple("ext4", "/", None);
    a.partition_type = PartitionType::Root;
    let mut b = simple("ext4", "/home", None);
    b.flags = Some(vec![PartitionFlag::FlagPosition(70)]);
    let l = layout(vec![b.clone(), a.clone()]);
    assert_eq!(l.apply_plan("/dev/sda", "ppc64"), Err(LayoutError::InvalidFlag(70)));
    let l = layout(vec![a, b]);
    assert_eq!(
        l.apply_plan("/dev/sda", "ppc64"),
        Err(LayoutError::UnsupportedArch("ppc64".to_string()))
    );
}

#[test]
fn skipped_format_for_none() {
    let l = layout(vec![simple("none", "", Some(MIB))]);
    let plan = l.apply_plan("/dev/sda", "x86_64").unwrap();
    assert_eq!(plan[0].format, FormatKind::Skip);
    assert_eq!(plan[0].end, PartBound::MiB(1));
}

#[test]
fn get_index_and_partition() {
    let l = layout(vec![simple("ext4", "/a", None), simple("ext4", "/b", None), simple("xfs", "/b", None)]);
    assert_eq!(l.get_index("/b"), Some(2));
    assert_eq!(l.get_index("/c"), None);
    assert_eq!(l.get_partition("/b").unwrap().filesystem, "ext4");
    assert!(l.get_partition("/c").is_none());
}
