use katsu_layout::layout::{Partition, PartitionLayout};
use katsu_layout::manifest::{
    _default_true, compose, merge_arches, ArchPackages, merge_manifest, merge_options, script_default_priority, Auth,
    BootcConfig, Bootloader, ComposeError, DnfConfig, DnfOption, IsoConfig, Manifest,
    OutputFormat, Script, ScriptSource, ScriptsManifest, DEFAULT_VOLID,
};
use katsu_layout::partition::PartitionType;

fn empty() -> Manifest {
    Manifest {
        builder: None,
        import: vec![],
        distro: None,
        out_file: None,
        disk: None,
        dnf: DnfConfig::default(),
        bootc: BootcConfig::default(),
        scripts: ScriptsManifest::default(),
        users: vec![],
        kernel_cmdline: None,
        iso: None,
        bootloader: Bootloader::default(),
    }
}

fn opt(k: &str, v: &str) -> DnfOption {
    DnfOption { key: k.to_string(), value: v.to_string() }
}

fn user(name: &str) -> Auth {
    Auth {
        username: name.to_string(),
        password: None,
        groups: vec![],
        create_home: true,
        shell: None,
        uid: None,
        gid: None,
        ssh_keys: vec![],
    }
}

fn script(id: &str) -> Script {
    Script {
        id: Some(id.to_string()),
        name: None,
        file: None,
        inline: Some(format!("echo {id}")),
        chroot: None,
        needs: vec![],
        priority: script_default_priority(),
    }
}

fn layout_with(mp: &str) -> PartitionLayout {
    let mut l = PartitionLayout::new();
    l.add_partition(Partition {
        label: None,
        partition_type: PartitionType::LinuxGeneric,
        flags: None,
        size: None,
        filesystem: "ext4".to_string(),
        mountpoint: mp.to_string(),
        subvolumes: vec![],
    });
    l
}

#[test]
fn defaults() {
    assert_eq!(script_default_priority(), 50);
    assert!(_default_true());
    assert_eq!(Bootloader::default(), Bootloader::Grub);
}

#[test]
fn volume_ids() {
    assert_eq!(IsoConfig { volume_id: None }.get_volid(), DEFAULT_VOLID);
    assert_eq!(IsoConfig { volume_id: Some("MYOS".to_string()) }.get_volid(), "MYOS");
    let mut m = empty();
    assert_eq!(m.get_volid(), "KATSU-LIVEOS");
    m.iso = Some(IsoConfig { volume_id: Some("X".to_string()) });
    assert_eq!(m.get_volid(), "X");
}

#[test]
fn root_packages_survive_imports() {
    let mut root = empty();
    root.dnf.packages = vec!["kernel".to_string(), "vim".to_string()];
    root.dnf.exclude = vec!["nano".to_string()];
    let mut imp = empty();
    imp.dnf.packages = vec!["emacs".to_string()];
    imp.dnf.exclude = vec!["vim".to_string()];
    imp.dnf.repodir = Some("/repos".to_string());
    let r = compose(root, vec![imp], OutputFormat::Iso).unwrap();
    assert_eq!(r.dnf.packages, vec!["kernel", "vim"]);
    assert_eq!(r.dnf.exclude, vec!["nano"]);
    assert_eq!(r.dnf.repodir, None);
}

#[test]
fn root_bootloader_survives_imports() {
    let mut root = empty();
    root.bootloader = Bootloader::SystemdBoot;
    let mut imp = empty();
    imp.bootloader = Bootloader::Limine;
    let r = compose(root, vec![imp], OutputFormat::DiskImage).unwrap();
    assert_eq!(r.bootloader, Bootloader::SystemdBoot);
}

#[test]
fn folder_output_has_no_file_name() {
    let mut root = empty();
    root.out_file = Some("out.img".to_string());
    let mut imp = empty();
    imp.out_file = Some("other.img".to_string());
    let r = compose(root, vec![imp], OutputFormat::Folder).unwrap();
    assert_eq!(r.out_file, None);
}

#[test]
fn device_output_is_refused() {
    assert_eq!(compose(empty(), vec![], OutputFormat::Device), Err(ComposeError::DeviceUnsupported));
}

#[test]
fn nested_imports_resolve_into_one_manifest() {
    let mut c = empty();
    c.distro = Some("Base".to_string());
    c.users = vec![user("c")];
    c.scripts.pre = vec![script("c1")];
    let mut b = empty();
    b.import = vec!["/m/c.yaml".to_string()];
    b.users = vec![user("b")];
    let mut a = empty();
    a.import = vec!["/m/b.yaml".to_string()];
    a.users = vec![user("a")];
    a.scripts.pre = vec![script("a1")];

    let c_eff = compose(c, vec![], OutputFormat::Iso).unwrap();
    let b_eff = compose(b, vec![c_eff], OutputFormat::Iso).unwrap();
    let a_eff = compose(a, vec![b_eff], OutputFormat::Iso).unwrap();
    assert_eq!(a_eff.distro.as_deref(), Some("Base"));
    let names: Vec<&str> = a_eff.users.iter().map(|u| u.username.as_str()).collect();
    assert_eq!(names, vec!["a", "b", "c"]);
    let ids: Vec<&str> = a_eff.scripts.pre.iter().map(|s| s.id.as_deref().unwrap()).collect();
    assert_eq!(ids, vec!["a1", "c1"]);
    assert_eq!(a_eff.import, vec!["/m/b.yaml", "/m/c.yaml"]);
}

#[test]
fn root_plain_settings_win_over_imports() {
    let mut root = empty();
    root.distro = Some("Root".to_string());
    root.kernel_cmdline = Some("quiet".to_string());
    let mut imp = empty();
    imp.distro = Some("Imported".to_string());
    imp.builder = Some("dnf".to_string());
    let r = compose(root, vec![imp], OutputFormat::Iso).unwrap();
    assert_eq!(r.distro.as_deref(), Some("Root"));
    assert_eq!(r.kernel_cmdline.as_deref(), Some("quiet"));
    assert_eq!(r.builder.as_deref(), Some("dnf"));
}

#[test]
fn nested_settings_prefer_the_nearer_manifest() {
    let mut c = empty();
    c.distro = Some("c".to_string());
    c.builder = Some("c".to_string());
    c.kernel_cmdline = Some("c".to_string());
    let mut b = empty();
    b.distro = Some("b".to_string());
    b.builder = Some("b".to_string());
    let mut a = empty();
    a.distro = Some("a".to_string());
    let c_eff = compose(c, vec![], OutputFormat::Iso).unwrap();
    let b_eff = compose(b, vec![c_eff], OutputFormat::Iso).unwrap();
    let a_eff = compose(a, vec![b_eff], OutputFormat::Iso).unwrap();
    assert_eq!(a_eff.distro.as_deref(), Some("a"));
    assert_eq!(a_eff.builder.as_deref(), Some("b"));
    assert_eq!(a_eff.kernel_cmdline.as_deref(), Some("c"));
}

#[test]
fn iso_and_disk_precedence_by_output() {
    let mut root = empty();
    root.iso = Some(IsoConfig { volume_id: Some("ROOT".to_string()) });
    root.disk = Some(layout_with("/"));
    let mut imp = empty();
    imp.iso = Some(IsoConfig { volume_id: Some("IMP".to_string()) });
    imp.disk = Some(layout_with("/home"));
    let r = compose(root.clone(), vec![imp.clone()], OutputFormat::Iso).unwrap();
    assert_eq!(r.get_volid(), "ROOT");
    assert_eq!(r.disk.unwrap().partitions[0].mountpoint, "/home");
    let r = compose(root.clone(), vec![imp.clone()], OutputFormat::DiskImage).unwrap();
    assert_eq!(r.get_volid(), "IMP");
    assert_eq!(r.disk.unwrap().partitions[0].mountpoint, "/");
    let mut bare = root;
    bare.iso = None;
    let r = compose(bare, vec![imp], OutputFormat::Iso).unwrap();
    assert_eq!(r.get_volid(), "IMP");
}

#[test]
fn options_root_wins_over_global() {
    let mut root = empty();
    root.dnf.options = vec![opt("retries", "5")];
    let mut imp = empty();
    imp.dnf.global_options = vec![opt("retries", "1"), opt("fastestmirror", "true")];
    let r = compose(root, vec![imp], OutputFormat::Iso).unwrap();
    assert_eq!(r.dnf.options, vec![opt("fastestmirror", "true"), opt("retries", "5")]);
    assert_eq!(r.dnf.global_options, vec![opt("retries", "1"), opt("fastestmirror", "true")]);
}

#[test]
fn merge_options_override_wins() {
    let base = vec![opt("a", "1"), opt("b", "2")];
    let over = vec![opt("b", "3"), opt("c", "4")];
    assert_eq!(merge_options(&base, &over), vec![opt("a", "1"), opt("b", "3"), opt("c", "4")]);
    assert_eq!(merge_options(&vec![], &vec![]), vec![]);
}

#[test]
fn merge_joins_lists_and_merges_nested() {
    let mut a = empty();
    a.users = vec![user("x")];
    a.iso = Some(IsoConfig { volume_id: Some("A".to_string()) });
    a.disk = Some(layout_with("/"));
    let mut b = empty();
    b.users = vec![user("y")];
    b.iso = Some(IsoConfig { volume_id: None });
    b.disk = Some(layout_with("/home"));
    b.bootloader = Bootloader::Limine;
    let r = merge_manifest(a, b);
    assert_eq!(r.users.len(), 2);
    assert_eq!(r.get_volid(), "A");
    assert_eq!(r.disk.unwrap().partitions.len(), 2);
    assert_eq!(r.bootloader, Bootloader::Grub);
}

#[test]
fn useradd_arguments() {
    let mut u = user("alice");
    u.uid = Some(1001);
    u.gid = Some(100);
    u.shell = Some("/bin/zsh".to_string());
    u.password = Some("$6$hash".to_string());
    u.create_home = false;
    u.groups = vec!["wheel".to_string(), "video".to_string()];
    assert_eq!(
        u.useradd_args(),
        vec!["-u", "1001", "-g", "100", "-s", "/bin/zsh", "-p", "$6$hash", "-M", "-G", "wheel", "-G", "video", "alice"]
    );
    assert_eq!(user("bob").useradd_args(), vec!["-m", "bob"]);
}

#[test]
fn authorized_keys_one_per_line() {
    let mut u = user("alice");
    assert_eq!(u.authorized_keys(), "");
    u.ssh_keys = vec!["ssh-ed25519 AAA".to_string(), "ssh-rsa BBB".to_string()];
    assert_eq!(u.authorized_keys(), "ssh-ed25519 AAA\nssh-rsa BBB\n");
}

#[test]
fn script_source_prefers_inline() {
    let mut s = script("x");
    s.file = Some("/s.sh".to_string());
    assert_eq!(s.source(), ScriptSource::Inline("echo x".to_string()));
    s.inline = None;
    assert_eq!(s.source(), ScriptSource::File("/s.sh".to_string()));
    s.file = None;
    assert_eq!(s.source(), ScriptSource::Missing);
}

fn arch(a: &str, pk: &[&str]) -> ArchPackages {
    ArchPackages { arch: a.to_string(), packages: pk.iter().map(|p| p.to_string()).collect() }
}

#[test]
fn merge_joins_packages_of_the_same_arch() {
    let base = vec![arch("x86_64", &["a"]), arch("aarch64", &["b"])];
    let over = vec![arch("riscv64", &["d"]), arch("x86_64", &["c"])];
    assert_eq!(
        merge_arches(base, over),
        vec![arch("x86_64", &["a", "c"]), arch("aarch64", &["b"]), arch("riscv64", &["d"])]
    );
    assert_eq!(merge_arches(vec![], vec![arch("x", &[])]), vec![arch("x", &[])]);
}

#[test]
fn manifest_merge_joins_arch_lists() {
    let mut a = empty();
    a.dnf.arch_exclude = vec![arch("x86_64", &["a"])];
    let mut b = empty();
    b.dnf.arch_exclude = vec![arch("x86_64", &["b"])];
    b.dnf.arch_packages = vec![arch("aarch64", &["p"])];
    let r = merge_manifest(a, b);
    assert_eq!(r.dnf.arch_exclude, vec![arch("x86_64", &["a", "b"])]);
    assert_eq!(r.dnf.arch_packages, vec![arch("aarch64", &["p"])]);
}

#[test]
fn useradd_numbers_in_decimal() {
    let mut u = user("z");
    u.uid = Some(0);
    u.gid = Some(4294967295);
    assert_eq!(u.useradd_args(), vec!["-u", "0", "-g", "4294967295", "-m", "z"]);
}
