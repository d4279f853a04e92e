//! Manifests and their composition: an effective manifest is the root one
//! with its imports merged in, under per-field precedence rules.
use vstd::prelude::*;
use vstd::string::*;

use crate::layout::PartitionLayout;
use crate::text::{decimal, decimal_text, str_eq};

verus! {

/// The volume id of an ISO whose manifest names none.
pub const DEFAULT_VOLID: &'static str = "KATSU-LIVEOS";

/// ISO image settings.
#[derive(Clone, Debug, PartialEq, Eq)]
pub struct IsoConfig {
    /// Volume id of the ISO image.
    pub volume_id: Option<String>,
}

/// The volume id that an optional volume-id setting gives.
pub open spec fn volid_of(v: Option<String>) -> Seq<char> {
    match v {
        Some(s) => s@,
        None => DEFAULT_VOLID@,
    }
}

impl IsoConfig {
    /// The volume id, or the default one.
    pub fn get_volid(&self) -> (r: String)
        ensures
            r@ == volid_of(self.volume_id),
    {
        match &self.volume_id {
            Some(v) => v.clone(),
            None => String::from_str(DEFAULT_VOLID),
        }
    }
}

/// Which bootloader the image gets.
#[derive(Clone, Copy, Debug, PartialEq, Eq, Structural)]
pub enum Bootloader {
    Grub,
    GrubBios,
    Limine,
    SystemdBoot,
}

impl Default for Bootloader {
    fn default() -> (r: Self)
        ensures
            r == Bootloader::Grub,
    {
        Bootloader::Grub
    }
}

/// The kinds of build output.
#[derive(Clone, Copy, Debug, PartialEq, Eq, Structural)]
pub enum OutputFormat {
    Iso,
    /// Writing straight to a device; not supported.
    Device,
    DiskImage,
    Folder,
}

/// Why manifests cannot be composed.
#[derive(Clone, Copy, Debug, PartialEq, Eq, Structural)]
pub enum ComposeError {
    /// Device output has no builder.
    DeviceUnsupported,
}

/// The priority of a script that declares none.
pub fn script_default_priority() -> (r: i32)
    ensures
        r == 50,
{
    50
}

/// `true`, the default of settings that are on unless turned off.
pub fn _default_true() -> (r: bool)
    ensures
        r,
{
    true
}

/// A script run before or after the build.
#[derive(Clone, Debug, PartialEq, Eq)]
pub struct Script {
    pub id: Option<String>,
    pub name: Option<String>,
    /// Path of a file holding the script.
    pub file: Option<String>,
    /// The script itself; takes precedence over `file`.
    pub inline: Option<String>,
    /// Run inside the chroot.
    pub chroot: Option<bool>,
    /// Ids of scripts that must run first.
    pub needs: Vec<String>,
    /// Lower runs earlier; 50 by default.
    pub priority: i32,
}

/// Where the text of a script comes from.
#[derive(Clone, Debug, PartialEq, Eq)]
pub enum ScriptSource {
    Inline(String),
    File(String),
    Missing,
}

impl Script {
    /// The inline text if there is one, else the file to read.
    pub fn source(&self) -> (r: ScriptSource)
        ensures
            match self.inline {
                Some(t) => r == ScriptSource::Inline(t),
                None => match self.file {
                    Some(f) => r == ScriptSource::File(f),
                    None => r == ScriptSource::Missing,
                },
            },
    {
        match &self.inline {
            Some(t) => ScriptSource::Inline(t.clone()),
            None => match &self.file {
                Some(f) => ScriptSource::File(f.clone()),
                None => ScriptSource::Missing,
            },
        }
    }
}

/// The scripts of a manifest.
#[derive(Clone, Debug, PartialEq, Eq, Default)]
pub struct ScriptsManifest {
    pub pre: Vec<Script>,
    pub post: Vec<Script>,
}

/// A user to create in the image.
#[derive(Clone, Debug, PartialEq, Eq)]
pub struct Auth {
    pub username: String,
    /// Password hashed with crypt(3) or mkpasswd(1).
    pub password: Option<String>,
    pub groups: Vec<String>,
    /// Create a home directory; on by default.
    pub create_home: bool,
    pub shell: Option<String>,
    pub uid: Option<u32>,
    pub gid: Option<u32>,
    /// Keys written to `~/.ssh/authorized_keys`.
    pub ssh_keys: Vec<String>,
}

pub open spec fn opt_flag(flag: Seq<char>, v: Option<Seq<char>>) -> Seq<Seq<char>> {
    match v {
        Some(x) => seq![flag, x],
        None => Seq::empty(),
    }
}

pub open spec fn opt_num(n: Option<u32>) -> Option<Seq<char>> {
    match n {
        Some(x) => Some(decimal(x as nat)),
        None => None,
    }
}

pub open spec fn opt_text(s: Option<String>) -> Option<Seq<char>> {
    match s {
        Some(x) => Some(x@),
        None => None,
    }
}

/// `-G group` for each of the first `k` groups.
pub open spec fn group_flags(groups: Seq<String>, k: nat) -> Seq<Seq<char>>
    decreases k,
{
    if k == 0 || k > groups.len() {
        Seq::empty()
    } else {
        group_flags(groups, (k - 1) as nat) + seq!["-G"@, groups[k - 1]@]
    }
}

/// The arguments of `useradd` for a user.
pub open spec fn useradd_args_of(a: Auth) -> Seq<Seq<char>> {
    opt_flag("-u"@, opt_num(a.uid)) + opt_flag("-g"@, opt_num(a.gid)) + opt_flag(
        "-s"@,
        opt_text(a.shell),
    ) + opt_flag("-p"@, opt_text(a.password)) + seq![
        if a.create_home {
            "-m"@
        } else {
            "-M"@
        },
    ] + group_flags(a.groups@, a.groups@.len()) + seq![a.username@]
}

/// The text of an `authorized_keys` file with the first `k` keys, one per line.
pub open spec fn keys_text(keys: Seq<String>, k: nat) -> Seq<char>
    decreases k,
{
    if k == 0 || k > keys.len() {
        Seq::empty()
    } else {
        keys_text(keys, (k - 1) as nat) + keys[k - 1]@ + "\n"@
    }
}

fn push_flag(args: &mut Vec<String>, flag: &str, v: String)
    ensures
        final(args)@.map_values(|s: String| s@) == old(args)@.map_values(|s: String| s@) + seq![
            flag@,
            v@,
        ],
{
    let ghost before = args@;
    args.push(String::from_str(flag));
    args.push(v);
    assert(args@.map_values(|s: String| s@) =~= before.map_values(|s: String| s@) + seq![
        flag@,
        v@,
    ]);
}

impl Auth {
    /// The arguments `useradd` is run with to create this user.
    pub fn useradd_args(&self) -> (r: Vec<String>)
        ensures
            r@.map_values(|s: String| s@) == useradd_args_of(*self),
    {
        let mut args: Vec<String> = Vec::new();
        let ghost e = Seq::<Seq<char>>::empty();
        assert(args@.map_values(|s: String| s@) =~= e);
        if let Some(uid) = self.uid {
            push_flag(&mut args, "-u", decimal_text(uid as u64));
        }
        assert(args@.map_values(|s: String| s@) =~= opt_flag("-u"@, opt_num(self.uid)));
        let ghost a1 = args@.map_values(|s: String| s@);
        if let Some(gid) = self.gid {
            push_flag(&mut args, "-g", decimal_text(gid as u64));
        }
        assert(args@.map_values(|s: String| s@) =~= a1 + opt_flag("-g"@, opt_num(self.gid)));
        let ghost a2 = args@.map_values(|s: String| s@);
        if let Some(shell) = &self.shell {
            push_flag(&mut args, "-s", shell.clone());
        }
        assert(args@.map_values(|s: String| s@) =~= a2 + opt_flag("-s"@, opt_text(self.shell)));
        let ghost a3 = args@.map_values(|s: String| s@);
        if let Some(password) = &self.password {
            push_flag(&mut args, "-p", password.clone());
        }
        assert(args@.map_values(|s: String| s@) =~= a3 + opt_flag("-p"@, opt_text(self.password)));
        let ghost a4 = args@.map_values(|s: String| s@);
        if self.create_home {
            args.push(String::from_str("-m"));
        } else {
            args.push(String::from_str("-M"));
        }
        let ghost a5 = args@.map_values(|s: String| s@);
        assert(a5 =~= a4 + seq![
            if self.create_home {
                "-m"@
            } else {
                "-M"@
            },
        ]);
        let mut k: usize = 0;
        while k < self.groups.len()
            invariant
                k <= self.groups@.len(),
                args@.map_values(|s: String| s@) == a5 + group_flags(self.groups@, k as nat),
            decreases self.groups@.len() - k,
        {
            push_flag(&mut args, "-G", self.groups[k].clone());
            k = k + 1;
        }
        let ghost a6 = args@.map_values(|s: String| s@);
        args.push(self.username.clone());
        assert(args@.map_values(|s: String| s@) =~= a6 + seq![self.username@]);
        args
    }

    /// The text of the user's `authorized_keys` file: each key on a line of its own.
    pub fn authorized_keys(&self) -> (r: String)
        ensures
            r@ == keys_text(self.ssh_keys@, self.ssh_keys@.len()),
    {
        let mut r = String::new();
        let mut k: usize = 0;
        while k < self.ssh_keys.len()
            invariant
                k <= self.ssh_keys@.len(),
                r@ == keys_text(self.ssh_keys@, k as nat),
            decreases self.ssh_keys@.len() - k,
        {
            r.append(self.ssh_keys[k].as_str());
            r.append("\n");
            k = k + 1;
        }
        r
    }
}

/// One key-value option of the package manager.
#[derive(Clone, Debug, PartialEq, Eq)]
pub struct DnfOption {
    pub key: String,
    pub value: String,
}

/// Packages (or excludes) that apply on one architecture only.
#[derive(Clone, Debug, PartialEq, Eq)]
pub struct ArchPackages {
    pub arch: String,
    pub packages: Vec<String>,
}

/// Package-manager settings. `arch_packages` and `arch_exclude` are maps
/// from architecture to packages: well-formed settings (`dnf_wf`) have one
/// entry per architecture.
#[derive(Clone, Debug, PartialEq, Eq, Default)]
pub struct DnfConfig {
    pub packages: Vec<String>,
    pub arch_packages: Vec<ArchPackages>,
    pub arch_exclude: Vec<ArchPackages>,
    pub exclude: Vec<String>,
    /// Directory of repository definitions.
    pub repodir: Option<String>,
    /// Options of this build.
    pub options: Vec<DnfOption>,
    /// Options that imported manifests contribute; this build's own `options` win over them.
    pub global_options: Vec<DnfOption>,
    pub releasever: Option<String>,
}

/// Settings of the bootc root builder.
#[derive(Clone, Debug, PartialEq, Eq, Default)]
pub struct BootcConfig {
    pub image: Option<String>,
}

/// A build manifest.
#[derive(Clone, Debug, PartialEq, Eq)]
pub struct Manifest {
    pub builder: Option<String>,
    /// Paths of imported manifests.
    pub import: Vec<String>,
    pub distro: Option<String>,
    /// Output file name.
    pub out_file: Option<String>,
    pub disk: Option<PartitionLayout>,
    pub dnf: DnfConfig,
    pub bootc: BootcConfig,
    pub scripts: ScriptsManifest,
    pub users: Vec<Auth>,
    /// Extra kernel command-line parameters.
    pub kernel_cmdline: Option<String>,
    pub iso: Option<IsoConfig>,
    pub bootloader: Bootloader,
}

impl Manifest {
    /// The ISO volume id: that of the ISO settings, else the default one.
    pub fn get_volid(&self) -> (r: String)
        ensures
            r@ == match self.iso {
                Some(i) => volid_of(i.volume_id),
                None => DEFAULT_VOLID@,
            },
    {
        match &self.iso {
            Some(iso) => iso.get_volid(),
            None => String::from_str(DEFAULT_VOLID),
        }
    }
}

// ---------------------------------------------------------------------------
// Generic merge
/// A setting merged with an imported one: the setting merged into (the side
/// closer to the root) where it is set, else the imported one.
pub open spec fn pick<T>(base: Option<T>, over: Option<T>) -> Option<T> {
    if base is Some {
        base
    } else {
        over
    }
}

fn pick_string(base: Option<String>, over: Option<String>) -> (r: Option<String>)
    ensures
        r == pick(base, over),
{
    if base.is_some() {
        base
    } else {
        over
    }
}

/// Some entry of `opts` has the key `k`.
pub open spec fn has_key(opts: Seq<DnfOption>, k: Seq<char>) -> bool {
    exists|i: int| 0 <= i < opts.len() && (#[trigger] opts[i]).key@ == k
}

/// The entries of the first `k` of `base` whose key `over` does not have.
pub open spec fn kept_options(base: Seq<DnfOption>, over: Seq<DnfOption>, k: nat) -> Seq<DnfOption>
    decreases k,
{
    if k == 0 || k > base.len() {
        Seq::empty()
    } else {
        let prev = kept_options(base, over, (k - 1) as nat);
        if has_key(over, base[k - 1].key@) {
            prev
        } else {
            prev.push(base[k - 1])
        }
    }
}

/// Two option maps merged: the entries of `over`, and those of `base` whose key it lacks.
pub open spec fn merged_options(base: Seq<DnfOption>, over: Seq<DnfOption>) -> Seq<DnfOption> {
    kept_options(base, over, base.len()) + over
}

fn key_in(opts: &Vec<DnfOption>, k: &String) -> (r: bool)
    ensures
        r == has_key(opts@, k@),
{
    let mut i: usize = 0;
    while i < opts.len()
        invariant
            i <= opts@.len(),
            forall|j: int| 0 <= j < i ==> (#[trigger] opts@[j]).key@ != k@,
        decreases opts@.len() - i,
    {
        if str_eq(opts[i].key.as_str(), k.as_str()) {
            return true;
        }
        i = i + 1;
    }
    false
}

/// Merges two option maps; `over` wins where both have a key.
pub fn merge_options(base: &Vec<DnfOption>, over: &Vec<DnfOption>) -> (r: Vec<DnfOption>)
    ensures
        r@ == merged_options(base@, over@),
{
    let mut r: Vec<DnfOption> = Vec::new();
    let mut k: usize = 0;
    while k < base.len()
        invariant
            k <= base@.len(),
            r@ == kept_options(base@, over@, k as nat),
        decreases base@.len() - k,
    {
        let e = &base[k];
        if !key_in(over, &e.key) {
            r.push(DnfOption { key: e.key.clone(), value: e.value.clone() });
        }
        k = k + 1;
    }
    let mut i: usize = 0;
    let ghost kept = r@;
    while i < over.len()
        invariant
            i <= over@.len(),
            r@ == kept + over@.subrange(0, i as int),
        decreases over@.len() - i,
    {
        r.push(DnfOption { key: over[i].key.clone(), value: over[i].value.clone() });
        assert(over@.subrange(0, i + 1) =~= over@.subrange(0, i as int).push(over@[i as int]));
        i = i + 1;
    }
    assert(over@.subrange(0, i as int) =~= over@);
    r
}

/// Some entry of `s` is for the architecture `a`.
pub open spec fn has_arch(s: Seq<ArchPackages>, a: Seq<char>) -> bool {
    exists|i: int| 0 <= i < s.len() && (#[trigger] s[i]).arch@ == a
}

/// No two entries of `s` are for the same architecture: the entries form a
/// map from architecture to packages.
pub open spec fn arches_unique(s: Seq<ArchPackages>) -> bool {
    forall|i: int, j: int| 0 <= i < j < s.len() ==> (#[trigger] s[i]).arch@ != (#[trigger] s[j]).arch@
}

/// The packages of the first `k` entries of `s` that are for `a`, in order.
pub open spec fn packages_for(s: Seq<ArchPackages>, a: Seq<char>, k: nat) -> Seq<String>
    decreases k,
{
    if k == 0 || k > s.len() {
        Seq::empty()
    } else {
        packages_for(s, a, (k - 1) as nat) + if s[k - 1].arch@ == a {
            s[k - 1].packages@
        } else {
            Seq::<String>::empty()
        }
    }
}

/// The entries among the first `k` of `over` for an architecture that `base` lacks.
pub open spec fn new_arches(over: Seq<ArchPackages>, base: Seq<ArchPackages>, k: nat) -> Seq<
    ArchPackages,
>
    decreases k,
{
    if k == 0 || k > over.len() {
        Seq::empty()
    } else {
        let prev = new_arches(over, base, (k - 1) as nat);
        if has_arch(base, over[k - 1].arch@) {
            prev
        } else {
            prev.push(over[k - 1])
        }
    }
}

/// `r` is the per-architecture lists `over` merged into `base`: each entry of
/// `base` with the packages that `over` lists for its architecture appended,
/// then the entries of `over` for the other architectures.
pub open spec fn merged_arches(base: Seq<ArchPackages>, over: Seq<ArchPackages>, r: Seq<ArchPackages>) -> bool {
    &&& r.len() == base.len() + new_arches(over, base, over.len()).len()
    &&& forall|i: int|
        0 <= i < base.len() ==> (#[trigger] r[i]).arch == base[i].arch && r[i].packages@
            == base[i].packages@ + packages_for(over, base[i].arch@, over.len())
    &&& r.subrange(base.len() as int, r.len() as int) == new_arches(over, base, over.len())
}

proof fn lemma_new_arches(over: Seq<ArchPackages>, base: Seq<ArchPackages>, k: nat)
    requires
        arches_unique(over),
        k <= over.len(),
    ensures
        arches_unique(new_arches(over, base, k)),
        forall|t: int|
            0 <= t < new_arches(over, base, k).len() ==> !has_arch(
                base,
                (#[trigger] new_arches(over, base, k)[t]).arch@,
            ) && exists|j: int| 0 <= j < k && over[j] == new_arches(over, base, k)[t],
    decreases k,
{
    if k > 0 {
        lemma_new_arches(over, base, (k - 1) as nat);
        let prev = new_arches(over, base, (k - 1) as nat);
        let cur = new_arches(over, base, k);
        if !has_arch(base, over[k - 1].arch@) {
            assert forall|t: int| 0 <= t < prev.len() implies (#[trigger] prev[t]).arch@ != over[k
                - 1].arch@ by {
                let j = choose|j: int| 0 <= j < k - 1 && over[j] == prev[t];
                assert(over[j].arch@ != over[k - 1].arch@);
            }
            assert forall|t: int| 0 <= t < cur.len() implies !has_arch(
                base,
                (#[trigger] cur[t]).arch@,
            ) && exists|j: int| 0 <= j < k && over[j] == cur[t] by {
                if t < prev.len() {
                    assert(cur[t] == prev[t]);
                    let j = choose|j: int| 0 <= j < k - 1 && over[j] == prev[t];
                    assert(over[j] == cur[t]);
                } else {
                    assert(over[k - 1] == cur[t]);
                }
            }
            assert forall|x: int, y: int| 0 <= x < y < cur.len() implies (#[trigger] cur[x]).arch@
                != (#[trigger] cur[y]).arch@ by {
                if y < prev.len() {
                    assert(cur[x] == prev[x] && cur[y] == prev[y]);
                } else {
                    assert(cur[x] == prev[x]);
                }
            }
        } else {
            assert forall|t: int| 0 <= t < cur.len() implies !has_arch(
                base,
                (#[trigger] cur[t]).arch@,
            ) && exists|j: int| 0 <= j < k && over[j] == cur[t] by {
                let j = choose|j: int| 0 <= j < k - 1 && over[j] == prev[t];
                assert(over[j] == cur[t]);
            }
        }
    }
}

/// Merging per-architecture lists that each have one entry per architecture
/// gives one entry per architecture.
pub proof fn lemma_merged_arches_unique(
    base: Seq<ArchPackages>,
    over: Seq<ArchPackages>,
    r: Seq<ArchPackages>,
)
    requires
        arches_unique(base),
        arches_unique(over),
        merged_arches(base, over, r),
    ensures
        arches_unique(r),
{
    lemma_new_arches(over, base, over.len());
    let nw = new_arches(over, base, over.len());
    let b = base.len() as int;
    assert forall|x: int, y: int| 0 <= x < y < r.len() implies (#[trigger] r[x]).arch@
        != (#[trigger] r[y]).arch@ by {
        if y < b {
            assert(r[x].arch == base[x].arch && r[y].arch == base[y].arch);
        } else if x < b {
            assert(r[y] == r.subrange(b, r.len() as int)[y - b]);
            assert(r[y] == nw[y - b]);
            assert(!has_arch(base, nw[y - b].arch@));
            assert(r[x].arch == base[x].arch);
        } else {
            assert(r[y] == r.subrange(b, r.len() as int)[y - b]);
            assert(r[x] == r.subrange(b, r.len() as int)[x - b]);
            assert(nw[x - b].arch@ != nw[y - b].arch@);
        }
    }
}

fn copy_strings(dst: &mut Vec<String>, src: &Vec<String>)
    ensures
        final(dst)@ == old(dst)@ + src@,
{
    let ghost start = dst@;
    let mut i: usize = 0;
    while i < src.len()
        invariant
            i <= src@.len(),
            dst@ == start + src@.subrange(0, i as int),
        decreases src@.len() - i,
    {
        dst.push(src[i].clone());
        assert(src@.subrange(0, i + 1) =~= src@.subrange(0, i as int).push(src@[i as int]));
        i = i + 1;
    }
    assert(src@.subrange(0, i as int) =~= src@);
}

fn arch_in(s: &Vec<ArchPackages>, a: &String) -> (r: bool)
    ensures
        r == has_arch(s@, a@),
{
    let mut i: usize = 0;
    while i < s.len()
        invariant
            i <= s@.len(),
            forall|j: int| 0 <= j < i ==> (#[trigger] s@[j]).arch@ != a@,
        decreases s@.len() - i,
    {
        if str_eq(s[i].arch.as_str(), a.as_str()) {
            return true;
        }
        i = i + 1;
    }
    false
}

/// Merges per-architecture lists: packages for an architecture both have are
/// joined under `base`'s entry.
pub fn merge_arches(base: Vec<ArchPackages>, over: Vec<ArchPackages>) -> (r: Vec<ArchPackages>)
    ensures
        merged_arches(base@, over@, r@),
{
    let ghost over0 = over@;
    let mut r: Vec<ArchPackages> = Vec::new();
    let mut i: usize = 0;
    while i < base.len()
        invariant
            i <= base@.len(),
            over@ == over0,
            r@.len() == i,
            forall|t: int|
                0 <= t < i ==> (#[trigger] r@[t]).arch == base@[t].arch && r@[t].packages@
                    == base@[t].packages@ + packages_for(over0, base@[t].arch@, over0.len()),
        decreases base@.len() - i,
    {
        let a = &base[i];
        let mut pk: Vec<String> = Vec::new();
        copy_strings(&mut pk, &a.packages);
        let mut j: usize = 0;
        while j < over.len()
            invariant
                j <= over@.len(),
                over@ == over0,
                pk@ == a.packages@ + packages_for(over0, a.arch@, j as nat),
            decreases over@.len() - j,
        {
            let ghost before = pk@;
            if str_eq(over[j].arch.as_str(), a.arch.as_str()) {
                copy_strings(&mut pk, &over[j].packages);
            }
            assert(pk@ =~= a.packages@ + packages_for(over0, a.arch@, (j + 1) as nat));
            j = j + 1;
        }
        r.push(ArchPackages { arch: a.arch.clone(), packages: pk });
        i = i + 1;
    }
    let b = base.len();
    let mut rest = over;
    let n = rest.len();
    let mut j: usize = 0;
    assert(r@.subrange(b as int, r@.len() as int) =~= Seq::<ArchPackages>::empty());
    while j < n
        invariant
            n == over0.len(),
            j <= n,
            b == base@.len(),
            rest@ == over0.subrange(j as int, n as int),
            r@.len() >= b,
            forall|t: int|
                0 <= t < b ==> (#[trigger] r@[t]).arch == base@[t].arch && r@[t].packages@
                    == base@[t].packages@ + packages_for(over0, base@[t].arch@, over0.len()),
            r@.subrange(b as int, r@.len() as int) == new_arches(over0, base@, j as nat),
        decreases n - j,
    {
        let e = rest.remove(0);
        assert(e == over0[j as int]);
        let ghost before = r@;
        if !arch_in(&base, &e.arch) {
            r.push(e);
            assert(r@.subrange(b as int, r@.len() as int) =~= before.subrange(
                b as int,
                before.len() as int,
            ).push(over0[j as int]));
        }
        assert(rest@ =~= over0.subrange(j + 1, n as int));
        j = j + 1;
    }
    r
}

/// The ISO settings merged: field by field where both are present.
pub open spec fn merged_iso(base: Option<IsoConfig>, over: Option<IsoConfig>) -> Option<IsoConfig> {
    match (base, over) {
        (Some(b), Some(o)) => Some(IsoConfig { volume_id: pick(b.volume_id, o.volume_id) }),
        (_, Some(o)) => Some(o),
        (b, None) => b,
    }
}

/// `r` is the disk layout `base` merged with `over`: field by field where both
/// are present, partitions of `over` after those of `base`.
pub open spec fn merged_disk(
    base: Option<PartitionLayout>,
    over: Option<PartitionLayout>,
    r: Option<PartitionLayout>,
) -> bool {
    match (base, over) {
        (Some(b), Some(o)) => r matches Some(m) && m.size == pick(b.size, o.size) && m.partitions@
            == b.partitions@ + o.partitions@,
        (_, Some(o)) => r == Some(o),
        (b, None) => r == b,
    }
}

/// Each architecture has at most one entry in the per-architecture lists.
pub open spec fn dnf_wf(d: DnfConfig) -> bool {
    arches_unique(d.arch_packages@) && arches_unique(d.arch_exclude@)
}

/// `r` is the package-manager settings `base` merged with `over`.
pub open spec fn merged_dnf(base: DnfConfig, over: DnfConfig, r: DnfConfig) -> bool {
    &&& r.packages@ == base.packages@ + over.packages@
    &&& merged_arches(base.arch_packages@, over.arch_packages@, r.arch_packages@)
    &&& merged_arches(base.arch_exclude@, over.arch_exclude@, r.arch_exclude@)
    &&& r.exclude@ == base.exclude@ + over.exclude@
    &&& r.repodir == pick(base.repodir, over.repodir)
    &&& r.options@ == merged_options(over.options@, base.options@)
    &&& r.global_options@ == merged_options(over.global_options@, base.global_options@)
    &&& r.releasever == pick(base.releasever, over.releasever)
}

/// `r` is `over` (an import) deep-merged into `base` (the side closer to the
/// root): a setting that `base` has set stays, an unset one takes that of
/// `over`; lists are joined, `base`'s entries first; option maps keep `base`'s
/// value where both have a key; nested settings merge field by field.
pub open spec fn merged(base: Manifest, over: Manifest, r: Manifest) -> bool {
    &&& r.builder == pick(base.builder, over.builder)
    &&& r.import@ == base.import@ + over.import@
    &&& r.distro == pick(base.distro, over.distro)
    &&& r.out_file == pick(base.out_file, over.out_file)
    &&& merged_disk(base.disk, over.disk, r.disk)
    &&& merged_dnf(base.dnf, over.dnf, r.dnf)
    &&& r.bootc.image == pick(base.bootc.image, over.bootc.image)
    &&& r.scripts.pre@ == base.scripts.pre@ + over.scripts.pre@
    &&& r.scripts.post@ == base.scripts.post@ + over.scripts.post@
    &&& r.users@ == base.users@ + over.users@
    &&& r.kernel_cmdline == pick(base.kernel_cmdline, over.kernel_cmdline)
    &&& r.iso == merged_iso(base.iso, over.iso)
    &&& r.bootloader == base.bootloader
}

fn join<T>(mut a: Vec<T>, mut b: Vec<T>) -> (r: Vec<T>)
    ensures
        r@ == a@ + b@,
{
    a.append(&mut b);
    a
}

fn merge_dnf(base: DnfConfig, over: DnfConfig) -> (r: DnfConfig)
    ensures
        merged_dnf(base, over, r),
        dnf_wf(base) && dnf_wf(over) ==> dnf_wf(r),
{
    let options = merge_options(&over.options, &base.options);
    let global_options = merge_options(&over.global_options, &base.global_options);
    let ghost b0 = base;
    let ghost o0 = over;
    let r = DnfConfig {
        packages: join(base.packages, over.packages),
        arch_packages: merge_arches(base.arch_packages, over.arch_packages),
        arch_exclude: merge_arches(base.arch_exclude, over.arch_exclude),
        exclude: join(base.exclude, over.exclude),
        repodir: pick_string(base.repodir, over.repodir),
        options,
        global_options,
        releasever: pick_string(base.releasever, over.releasever),
    };
    proof {
        if dnf_wf(b0) && dnf_wf(o0) {
            lemma_merged_arches_unique(b0.arch_packages@, o0.arch_packages@, r.arch_packages@);
            lemma_merged_arches_unique(b0.arch_exclude@, o0.arch_exclude@, r.arch_exclude@);
        }
    }
    r
}

fn merge_disk(base: Option<PartitionLayout>, over: Option<PartitionLayout>) -> (r: Option<
    PartitionLayout,
>)
    ensures
        merged_disk(base, over, r),
{
    match over {
        Some(o) => match base {
            Some(b) => Some(
                PartitionLayout {
                    size: if b.size.is_some() {
                        b.size
                    } else {
                        o.size
                    },
                    partitions: join(b.partitions, o.partitions),
                },
            ),
            None => Some(o),
        },
        None => base,
    }
}

fn merge_iso(base: Option<IsoConfig>, over: Option<IsoConfig>) -> (r: Option<IsoConfig>)
    ensures
        r == merged_iso(base, over),
{
    match over {
        Some(o) => match base {
            Some(b) => Some(IsoConfig { volume_id: pick_string(b.volume_id, o.volume_id) }),
            None => Some(o),
        },
        None => base,
    }
}

/// Deep-merges `over` into `base`.
pub fn merge_manifest(base: Manifest, over: Manifest) -> (r: Manifest)
    ensures
        merged(base, over, r),
        dnf_wf(base.dnf) && dnf_wf(over.dnf) ==> dnf_wf(r.dnf),
{
    Manifest {
        builder: pick_string(base.builder, over.builder),
        import: join(base.import, over.import),
        distro: pick_string(base.distro, over.distro),
        out_file: pick_string(base.out_file, over.out_file),
        disk: merge_disk(base.disk, over.disk),
        dnf: merge_dnf(base.dnf, over.dnf),
        bootc: BootcConfig { image: pick_string(base.bootc.image, over.bootc.image) },
        scripts: ScriptsManifest {
            pre: join(base.scripts.pre, over.scripts.pre),
            post: join(base.scripts.post, over.scripts.post),
        },
        users: join(base.users, over.users),
        kernel_cmdline: pick_string(base.kernel_cmdline, over.kernel_cmdline),
        iso: merge_iso(base.iso, over.iso),
        bootloader: base.bootloader,
    }
}

// ---------------------------------------------------------------------------
// Composition
/// `acc` is `root` with the settings that composition restores itself taken
/// out: bootloader, ISO settings, disk layout, and the package manager's
/// package lists, excludes, repository directory and options.
pub open spec fn set_aside(root: Manifest, acc: Manifest) -> bool {
    &&& acc.builder == root.builder
    &&& acc.import == root.import
    &&& acc.distro == root.distro
    &&& acc.out_file == root.out_file
    &&& acc.disk is None
    &&& acc.dnf.packages@.len() == 0
    &&& acc.dnf.arch_packages@.len() == 0
    &&& acc.dnf.arch_exclude@.len() == 0
    &&& acc.dnf.exclude@.len() == 0
    &&& acc.dnf.repodir is None
    &&& acc.dnf.options@.len() == 0
    &&& acc.dnf.global_options == root.dnf.global_options
    &&& acc.dnf.releasever == root.dnf.releasever
    &&& acc.bootc == root.bootc
    &&& acc.scripts == root.scripts
    &&& acc.users == root.users
    &&& acc.kernel_cmdline == root.kernel_cmdline
    &&& acc.iso is None
    &&& acc.bootloader == Bootloader::Grub
}

/// `r` is `merged` with the root's own settings restored: the root's
/// bootloader; the root's ISO settings for ISO output and its disk layout for
/// disk-image output, where it has them; no output file for folder output;
/// the root's package lists, excludes and repository directory; and the
/// root's options over the merged global options.
pub open spec fn restored(root: Manifest, merged: Manifest, output: OutputFormat, r: Manifest) -> bool {
    &&& r.builder == merged.builder
    &&& r.import == merged.import
    &&& r.distro == merged.distro
    &&& r.out_file == if output == OutputFormat::Folder {
        None
    } else {
        merged.out_file
    }
    &&& r.disk == if output == OutputFormat::DiskImage && root.disk is Some {
        root.disk
    } else {
        merged.disk
    }
    &&& r.dnf.packages == root.dnf.packages
    &&& r.dnf.arch_packages == root.dnf.arch_packages
    &&& r.dnf.arch_exclude == root.dnf.arch_exclude
    &&& r.dnf.exclude == root.dnf.exclude
    &&& r.dnf.repodir == root.dnf.repodir
    &&& r.dnf.options@ == merged_options(merged.dnf.global_options@, root.dnf.options@)
    &&& r.dnf.global_options == merged.dnf.global_options
    &&& r.dnf.releasever == merged.dnf.releasever
    &&& r.bootc == merged.bootc
    &&& r.scripts == merged.scripts
    &&& r.users == merged.users
    &&& r.kernel_cmdline == merged.kernel_cmdline
    &&& r.iso == if output == OutputFormat::Iso && root.iso is Some {
        root.iso
    } else {
        merged.iso
    }
    &&& r.bootloader == root.bootloader
}

/// `chain` folds `imports` into `root` set aside: it starts with the root set
/// aside, and each next entry is the previous one merged with the next import.
pub open spec fn folds(root: Manifest, imports: Seq<Manifest>, chain: Seq<Manifest>) -> bool {
    &&& chain.len() == imports.len() + 1
    &&& set_aside(root, chain[0])
    &&& forall|j: int| 0 <= j < imports.len() ==> merged(#[trigger] chain[j], imports[j], chain[j + 1])
}

/// `r` is the effective manifest of `root` with its imports, each of them
/// already effective, for `output`.
pub open spec fn composes_to(root: Manifest, imports: Seq<Manifest>, output: OutputFormat, r: Manifest) -> bool {
    exists|chain: Seq<Manifest>|
        folds(root, imports, chain) && #[trigger] restored(root, chain.last(), output, r)
}

/// The effective manifest of `root` whose imports, in order, have the
/// effective manifests `imports`. Device output is not supported.
pub fn compose(root: Manifest, imports: Vec<Manifest>, output: OutputFormat) -> (r: Result<
    Manifest,
    ComposeError,
>)
    ensures
        match r {
            Ok(m) => output != OutputFormat::Device && composes_to(root, imports@, output, m),
            Err(e) => output == OutputFormat::Device && e == ComposeError::DeviceUnsupported,
        },
{
    if output == OutputFormat::Device {
        return Err(ComposeError::DeviceUnsupported);
    }
    let ghost root0 = root;
    let ghost imps = imports@;
    let Manifest {
        builder,
        import,
        distro,
        out_file,
        disk: root_disk,
        dnf,
        bootc,
        scripts,
        users,
        kernel_cmdline,
        iso: root_iso,
        bootloader: root_bootloader,
    } = root;
    let DnfConfig {
        packages,
        arch_packages,
        arch_exclude,
        exclude,
        repodir,
        options: root_options,
        global_options,
        releasever,
    } = dnf;
    let mut acc = Manifest {
        builder,
        import,
        distro,
        out_file,
        disk: None,
        dnf: DnfConfig {
            packages: Vec::new(),
            arch_packages: Vec::new(),
            arch_exclude: Vec::new(),
            exclude: Vec::new(),
            repodir: None,
            options: Vec::new(),
            global_options,
            releasever,
        },
        bootc,
        scripts,
        users,
        kernel_cmdline,
        iso: None,
        bootloader: Bootloader::Grub,
    };
    let ghost mut chain = seq![acc];
    let mut rest = imports;
    let n = rest.len();
    let mut k: usize = 0;
    while k < n
        invariant
            n == imps.len(),
            k <= n,
            rest@ == imps.subrange(k as int, n as int),
            chain.len() == k + 1,
            set_aside(root0, chain[0]),
            chain.last() == acc,
            forall|j: int| 0 <= j < k ==> merged(#[trigger] chain[j], imps[j], chain[j + 1]),
        decreases n - k,
    {
        let next = rest.remove(0);
        assert(next == imps[k as int]);
        acc = merge_manifest(acc, next);
        proof {
            chain = chain.push(acc);
        }
        assert(rest@ =~= imps.subrange(k + 1, n as int));
        k = k + 1;
    }
    assert(folds(root0, imps, chain));
    let Manifest {
        builder,
        import,
        distro,
        out_file: merged_out,
        disk: merged_disk,
        dnf: mdnf,
        bootc,
        scripts,
        users,
        kernel_cmdline,
        iso: merged_iso,
        bootloader: _,
    } = acc;
    let out_file = match output {
        OutputFormat::Folder => None,
        _ => merged_out,
    };
    let disk = match output {
        OutputFormat::DiskImage => if root_disk.is_some() {
            root_disk
        } else {
            merged_disk
        },
        _ => merged_disk,
    };
    let iso = match output {
        OutputFormat::Iso => if root_iso.is_some() {
            root_iso
        } else {
            merged_iso
        },
        _ => merged_iso,
    };
    let options = merge_options(&mdnf.global_options, &root_options);
    let m = Manifest {
        builder,
        import,
        distro,
        out_file,
        disk,
        dnf: DnfConfig {
            packages,
            arch_packages,
            arch_exclude,
            exclude,
            repodir,
            options,
            global_options: mdnf.global_options,
            releasever: mdnf.releasever,
        },
        bootc,
        scripts,
        users,
        kernel_cmdline,
        iso,
        bootloader: root_bootloader,
    };
    assert(restored(root0, chain.last(), output, m));
    Ok(m)
}

/// The root manifest's package lists, excludes and repository directory are
/// those of the composed manifest, whatever its imports declare.
pub proof fn lemma_root_packages_kept(
    root: Manifest,
    imports: Seq<Manifest>,
    output: OutputFormat,
    r: Manifest,
)
    requires
        composes_to(root, imports, output, r),
    ensures
        r.dnf.packages == root.dnf.packages,
        r.dnf.arch_packages == root.dnf.arch_packages,
        r.dnf.arch_exclude == root.dnf.arch_exclude,
        r.dnf.exclude == root.dnf.exclude,
        r.dnf.repodir == root.dnf.repodir,
{
    let chain = choose|chain: Seq<Manifest>|
        folds(root, imports, chain) && #[trigger] restored(root, chain.last(), output, r);
}

/// The root manifest's bootloader is that of the composed manifest, whatever
/// its imports declare.
pub proof fn lemma_root_bootloader_kept(
    root: Manifest,
    imports: Seq<Manifest>,
    output: OutputFormat,
    r: Manifest,
)
    requires
        composes_to(root, imports, output, r),
    ensures
        r.bootloader == root.bootloader,
{
    let chain = choose|chain: Seq<Manifest>|
        folds(root, imports, chain) && #[trigger] restored(root, chain.last(), output, r);
}

/// Composing for folder output leaves no output file name.
pub proof fn lemma_folder_has_no_out_file(root: Manifest, imports: Seq<Manifest>, r: Manifest)
    requires
        composes_to(root, imports, OutputFormat::Folder, r),
    ensures
        r.out_file is None,
{
    let chain = choose|chain: Seq<Manifest>|
        folds(root, imports, chain) && #[trigger] restored(
            root,
            chain.last(),
            OutputFormat::Folder,
            r,
        );
}

/// With `a` importing `b` and `b` importing `c`, `c` is composed into `b`
/// before `b` is merged into `a`: the effective `a` holds the import paths,
/// users and scripts of all three, `a`'s first, and each plain setting is
/// `a`'s if set, else `b`'s if set, else `c`'s.
pub proof fn lemma_nested_imports_resolve(
    a: Manifest,
    b: Manifest,
    c: Manifest,
    output: OutputFormat,
    c_eff: Manifest,
    b_eff: Manifest,
    a_eff: Manifest,
)
    requires
        composes_to(c, Seq::empty(), output, c_eff),
        composes_to(b, seq![c_eff], output, b_eff),
        composes_to(a, seq![b_eff], output, a_eff),
    ensures
        a_eff.import@ == a.import@ + b.import@ + c.import@,
        a_eff.users@ == a.users@ + b.users@ + c.users@,
        a_eff.scripts.pre@ == a.scripts.pre@ + b.scripts.pre@ + c.scripts.pre@,
        a_eff.scripts.post@ == a.scripts.post@ + b.scripts.post@ + c.scripts.post@,
        a_eff.distro == pick(a.distro, pick(b.distro, c.distro)),
        a_eff.builder == pick(a.builder, pick(b.builder, c.builder)),
        a_eff.kernel_cmdline == pick(a.kernel_cmdline, pick(b.kernel_cmdline, c.kernel_cmdline)),
{
    let cc = choose|chain: Seq<Manifest>|
        folds(c, Seq::empty(), chain) && #[trigger] restored(c, chain.last(), output, c_eff);
    let bc = choose|chain: Seq<Manifest>|
        folds(b, seq![c_eff], chain) && #[trigger] restored(b, chain.last(), output, b_eff);
    let ac = choose|chain: Seq<Manifest>|
        folds(a, seq![b_eff], chain) && #[trigger] restored(a, chain.last(), output, a_eff);
    assert(merged(bc[0], seq![c_eff][0], bc[1]));
    assert(merged(ac[0], seq![b_eff][0], ac[1]));
    assert(a_eff.import@ =~= a.import@ + b.import@ + c.import@);
    assert(a_eff.users@ =~= a.users@ + b.users@ + c.users@);
    assert(a_eff.scripts.pre@ =~= a.scripts.pre@ + b.scripts.pre@ + c.scripts.pre@);
    assert(a_eff.scripts.post@ =~= a.scripts.post@ + b.scripts.post@ + c.scripts.post@);
}

} // verus!
