use bytesize::ByteSize;
use katsu_layout::layout::{Partition, PartitionLayout};
use katsu_layout::partition::{partition_name, PartitionType};
use std::str::FromStr;

#[test]
fn test_dev_name() {
    let devname = partition_name("/dev/mmcblk0", 1);
    assert_eq!(devname, "/dev/mmcblk0p1");

    let devname = partition_name("/dev/nvme0n1", 1);
    assert_eq!(devname, "/dev/nvme0n1p1");

    let devname = partition_name("/dev/loop0", 1);
    assert_eq!(devname, "/dev/loop0p1");

    let devname = partition_name("/dev/sda", 1);
    assert_eq!(devname, "/dev/sda1");
}

fn part(label: &str, t: PartitionType, size: ByteSize, fs: &str, mp: &str) -> Partition {
    Partition {
        label: Some(label.to_string()),
        partition_type: t,
        flags: None,
        size: Some(size.as_u64()),
        filesystem: fs.to_string(),
        mountpoint: mp.to_string(),
        subvolumes: vec![],
    }
}

#[test]
fn test_partlay() {
    let mock_disk = "/dev/sda";

    let mut partlay = PartitionLayout::new();
    partlay.add_partition(part("EFI", PartitionType::Esp, ByteSize::mib(100), "efi", "/boot/efi"));
    partlay.add_partition(part("boot", PartitionType::Xbootldr, ByteSize::gib(100), "ext4", "/boot"));
    partlay.add_partition(part("ROOT", PartitionType::Root, ByteSize::gib(100), "ext4", "/"));

    for (i, part) in partlay.partitions.iter().enumerate() {
        println!("Partition {i}:");
        println!("{part:#?}");
        let index = partlay.get_index(&part.mountpoint).unwrap();
        println!("Index: {index}");
        println!("Partition name: {}", partition_name(mock_disk, index));
        println!("====================");
    }

    let lay = partlay.sort_partitions();
    println!("{partlay:#?}");
    println!("sorted: {lay:#?}");

    let assertion = vec![
        (3, part("ROOT", PartitionType::Root, ByteSize::gib(100), "ext4", "/")),
        (2, part("boot", PartitionType::Xbootldr, ByteSize::gib(100), "ext4", "/boot")),
        (1, part("EFI", PartitionType::Esp, ByteSize::mib(100), "efi", "/boot/efi")),
    ];

    assert_eq!(lay, assertion)
}

#[test]
fn test_bytesize() {
    let size = ByteSize::mib(100);
    println!("{size:#?}");

    let size = ByteSize::from_str("100M").unwrap();
    println!("{:#?}", size.as_u64())
}
