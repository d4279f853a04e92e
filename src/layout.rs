//! Partition layouts: declaration order, mount order, and the plans that apply,
//! mount, unmount and describe them.
use vstd::prelude::*;
use vstd::string::*;

use crate::partition::{PartitionFlag, PartitionType};
use crate::partition::{device_name, flag_bit, is_arch_error, type_guid, LayoutError};
use crate::text::{
    chars_lt, decimal, decimal_text, lemma_chars_lt_irreflexive, lemma_chars_lt_total,
    lemma_chars_lt_transitive, str_eq, str_lt,
};

verus! {

/// A btrfs subvolume of a partition.
#[derive(Clone, Debug, PartialEq, Eq)]
pub struct BtrfsSubvolume {
    pub name: String,
    pub mountpoint: String,
}

/// One declared partition.
#[derive(Clone, Debug, PartialEq, Eq)]
pub struct Partition {
    pub label: Option<String>,
    pub partition_type: PartitionType,
    /// GPT attribute flags to set.
    pub flags: Option<Vec<PartitionFlag>>,
    /// Size in bytes; without one the partition takes the rest of the disk.
    pub size: Option<u64>,
    /// Filesystem to format with; `"none"` and `"swap"` are never mounted.
    pub filesystem: String,
    /// Where the partition is mounted; empty or `"-"` for nowhere.
    pub mountpoint: String,
    /// Only used with btrfs.
    pub subvolumes: Vec<BtrfsSubvolume>,
}

/// The value of a partition declaration.
pub struct PartitionView {
    pub label: Option<Seq<char>>,
    pub partition_type: PartitionType,
    pub flags: Option<Seq<PartitionFlag>>,
    pub size: Option<u64>,
    pub filesystem: Seq<char>,
    pub mountpoint: Seq<char>,
    pub subvolumes: Seq<(Seq<char>, Seq<char>)>,
}

/// The text of an optional string.
pub open spec fn opt_view(s: Option<String>) -> Option<Seq<char>> {
    match s {
        Some(x) => Some(x@),
        None => None,
    }
}

/// Name and mountpoint of each subvolume.
pub open spec fn subvolumes_view(s: Seq<BtrfsSubvolume>) -> Seq<(Seq<char>, Seq<char>)> {
    s.map_values(|x: BtrfsSubvolume| (x.name@, x.mountpoint@))
}

impl View for Partition {
    type V = PartitionView;

    open spec fn view(&self) -> PartitionView {
        PartitionView {
            label: opt_view(self.label),
            partition_type: self.partition_type,
            flags: match self.flags {
                Some(f) => Some(f@),
                None => None,
            },
            size: self.size,
            filesystem: self.filesystem@,
            mountpoint: self.mountpoint@,
            subvolumes: subvolumes_view(self.subvolumes@),
        }
    }
}

/// A copy of an optional string.
pub fn copy_opt_string(s: &Option<String>) -> (r: Option<String>)
    ensures
        opt_view(r) == opt_view(*s),
{
    match s {
        Some(x) => Some(x.clone()),
        None => None,
    }
}

impl Partition {
    /// A copy of this declaration.
    pub fn duplicate(&self) -> (r: Partition)
        ensures
            r@ == self@,
    {
        let flags = match &self.flags {
            Some(f) => {
                let mut v: Vec<PartitionFlag> = Vec::new();
                let mut i: usize = 0;
                while i < f.len()
                    invariant
                        i <= f@.len(),
                        v@ == f@.subrange(0, i as int),
                    decreases f@.len() - i,
                {
                    v.push(f[i]);
                    i = i + 1;
                }
                assert(v@ =~= f@);
                Some(v)
            },
            None => None,
        };
        let mut subs: Vec<BtrfsSubvolume> = Vec::new();
        let mut j: usize = 0;
        while j < self.subvolumes.len()
            invariant
                j <= self.subvolumes@.len(),
                subvolumes_view(subs@) == subvolumes_view(self.subvolumes@.subrange(0, j as int)),
            decreases self.subvolumes@.len() - j,
        {
            let s = &self.subvolumes[j];
            let ghost prev = subs@;
            let ghost item = (s.name@, s.mountpoint@);
            subs.push(BtrfsSubvolume { name: s.name.clone(), mountpoint: s.mountpoint.clone() });
            assert(subvolumes_view(subs@) =~= subvolumes_view(prev).push(item));
            assert(subvolumes_view(self.subvolumes@.subrange(0, j + 1)) =~= subvolumes_view(
                self.subvolumes@.subrange(0, j as int),
            ).push(item));
            j = j + 1;
        }
        assert(self.subvolumes@.subrange(0, j as int) =~= self.subvolumes@);
        Partition {
            label: copy_opt_string(&self.label),
            partition_type: self.partition_type,
            flags,
            size: self.size,
            filesystem: self.filesystem.clone(),
            mountpoint: self.mountpoint.clone(),
            subvolumes: subs,
        }
    }
}

// ---------------------------------------------------------------------------
// Mount order
/// 0 for the empty mountpoint, 1 for `/`, 2 for any other.
pub open spec fn mount_class(m: Seq<char>) -> nat {
    if m.len() == 0 {
        0
    } else if m == seq!['/'] {
        1
    } else {
        2
    }
}

/// The mountpoint without its trailing slashes.
pub open spec fn trim_trailing_slashes(m: Seq<char>) -> Seq<char>
    decreases m.len(),
{
    if m.len() > 0 && m.last() == '/' {
        trim_trailing_slashes(m.drop_last())
    } else {
        m
    }
}

/// The number of slashes in a sequence.
pub open spec fn count_slashes(m: Seq<char>) -> nat
    decreases m.len(),
{
    if m.len() == 0 {
        0
    } else {
        count_slashes(m.drop_last()) + if m.last() == '/' {
            1nat
        } else {
            0nat
        }
    }
}

/// How deep a mountpoint lies: its slashes once trailing ones are trimmed.
pub open spec fn mount_depth(m: Seq<char>) -> nat {
    count_slashes(trim_trailing_slashes(m))
}

/// Mountpoint `a` of the partition numbered `i` is mounted before mountpoint
/// `b` of the partition numbered `j`: empty first, then `/`, then by depth,
/// then by text, and equal mountpoints in declaration order.
pub open spec fn mounts_before(a: Seq<char>, i: nat, b: Seq<char>, j: nat) -> bool {
    if mount_class(a) != mount_class(b) {
        mount_class(a) < mount_class(b)
    } else if mount_depth(a) != mount_depth(b) {
        mount_depth(a) < mount_depth(b)
    } else if a != b {
        chars_lt(a, b)
    } else {
        i < j
    }
}

/// The mountpoint of the partition numbered `v` (1-based).
pub open spec fn mp_of(parts: Seq<Partition>, v: nat) -> Seq<char> {
    parts[v - 1].mountpoint@
}

/// The partition numbered `w` mounts before the one numbered `v`.
pub open spec fn before_in(parts: Seq<Partition>, w: nat, v: nat) -> bool {
    mounts_before(mp_of(parts, w), w, mp_of(parts, v), v)
}

/// `o` with `v` put after the last of its entries that mounts before `v`.
pub open spec fn insert_in_order(parts: Seq<Partition>, o: Seq<nat>, v: nat) -> Seq<nat>
    decreases o.len(),
{
    if o.len() == 0 {
        seq![v]
    } else if before_in(parts, o.last(), v) {
        o.push(v)
    } else {
        insert_in_order(parts, o.drop_last(), v).push(o.last())
    }
}

/// The mount order of the first `k` partitions, as their numbers.
pub open spec fn mount_order_upto(parts: Seq<Partition>, k: nat) -> Seq<nat>
    decreases k,
{
    if k == 0 {
        Seq::empty()
    } else {
        insert_in_order(parts, mount_order_upto(parts, (k - 1) as nat), k)
    }
}

/// The numbers of all partitions in the order in which they are mounted.
pub open spec fn mount_order(parts: Seq<Partition>) -> Seq<nat> {
    mount_order_upto(parts, parts.len())
}

/// A sequence of partition numbers as naturals.
pub open spec fn as_nats(s: Seq<usize>) -> Seq<nat> {
    s.map_values(|x: usize| x as nat)
}


proof fn lemma_before_transitive(a: Seq<char>, i: nat, b: Seq<char>, j: nat, c: Seq<char>, k: nat)
    requires
        mounts_before(a, i, b, j),
        mounts_before(b, j, c, k),
    ensures
        mounts_before(a, i, c, k),
{
    if mount_class(a) == mount_class(b) && mount_class(b) == mount_class(c) && mount_depth(a)
        == mount_depth(b) && mount_depth(b) == mount_depth(c) {
        if a != b && b != c {
            lemma_chars_lt_transitive(a, b, c);
            if a == c {
                lemma_chars_lt_transitive(a, b, a);
                lemma_chars_lt_irreflexive(a);
            }
        }
    }
}

proof fn lemma_before_total(a: Seq<char>, i: nat, b: Seq<char>, j: nat)
    requires
        i != j,
    ensures
        mounts_before(a, i, b, j) || mounts_before(b, j, a, i),
{
    if a != b {
        lemma_chars_lt_total(a, b);
    }
}

/// Every pair of entries of `o` is in mount order.
pub open spec fn in_mount_order(parts: Seq<Partition>, o: Seq<nat>) -> bool {
    forall|x: int, y: int| 0 <= x < y < o.len() ==> before_in(parts, #[trigger] o[x], #[trigger] o[y])
}

proof fn lemma_insert_in_order(parts: Seq<Partition>, o: Seq<nat>, v: nat)
    requires
        in_mount_order(parts, o),
        !o.contains(v),
    ensures
        in_mount_order(parts, insert_in_order(parts, o, v)),
        forall|x: nat| #[trigger] insert_in_order(parts, o, v).contains(x) <==> (o.contains(x) || x == v),
        insert_in_order(parts, o, v).len() == o.len() + 1,
    decreases o.len(),
{
    let r = insert_in_order(parts, o, v);
    if o.len() == 0 {
        assert(r =~= seq![v]);
        assert forall|x: nat| r.contains(x) <==> (o.contains(x) || x == v) by {
            if r.contains(x) {
                let t = choose|t: int| 0 <= t < r.len() && r[t] == x;
                assert(t == 0);
            }
            if x == v {
                assert(r[0] == v);
            }
        }
    } else if before_in(parts, o.last(), v) {
        assert forall|x: int, y: int| 0 <= x < y < r.len() implies before_in(parts, #[trigger] r[x], #[trigger] r[y]) by {
            if y == o.len() && x < o.len() - 1 {
                lemma_before_transitive(
                    mp_of(parts, o[x]), o[x], mp_of(parts, o.last()), o.last(), mp_of(parts, v), v);
            }
        }
        assert forall|x: nat| r.contains(x) <==> (o.contains(x) || x == v) by {
            if r.contains(x) {
                let t = choose|t: int| 0 <= t < r.len() && r[t] == x;
                if t < o.len() {
                    assert(o[t] == x);
                }
            }
            if o.contains(x) {
                let t = choose|t: int| 0 <= t < o.len() && o[t] == x;
                assert(r[t] == x);
            }
            if x == v {
                assert(r[o.len() as int] == v);
            }
        }
    } else {
        let init = o.drop_last();
        let last = o.last();
        assert(in_mount_order(parts, init)) by {
            assert forall|x: int, y: int| 0 <= x < y < init.len() implies before_in(parts, #[trigger] init[x], #[trigger] init[y]) by {
                assert(init[x] == o[x] && init[y] == o[y]);
            }
        }
        assert(!init.contains(v)) by {
            if init.contains(v) {
                let t = choose|t: int| 0 <= t < init.len() && init[t] == v;
                assert(o[t] == v);
            }
        }
        lemma_insert_in_order(parts, init, v);
        let ri = insert_in_order(parts, init, v);
        assert(r == ri.push(last));
        assert(last != v) by {
            assert(o[o.len() - 1] == last);
        }
        lemma_before_total(mp_of(parts, v), v, mp_of(parts, last), last);
        assert forall|x: int| 0 <= x < ri.len() implies before_in(parts, #[trigger] ri[x], last) by {
            let e = ri[x];
            assert(ri.contains(e));
            if e != v {
                assert(init.contains(e));
                let t = choose|t: int| 0 <= t < init.len() && init[t] == e;
                assert(o[t] == e);
                assert(before_in(parts, o[t], o[o.len() - 1]));
            }
        }
        assert forall|x: int, y: int| 0 <= x < y < r.len() implies before_in(parts, #[trigger] r[x], #[trigger] r[y]) by {
            if y == ri.len() {
                assert(r[x] == ri[x]);
                assert(before_in(parts, ri[x], last));
            } else {
                assert(r[x] == ri[x] && r[y] == ri[y]);
            }
        }
        assert forall|x: nat| r.contains(x) <==> (o.contains(x) || x == v) by {
            if r.contains(x) {
                let t = choose|t: int| 0 <= t < r.len() && r[t] == x;
                if t < ri.len() {
                    assert(ri[t] == x);
                    assert(ri.contains(x));
                    if x != v {
                        let u = choose|u: int| 0 <= u < init.len() && init[u] == x;
                        assert(o[u] == x);
                    }
                } else {
                    assert(o[o.len() - 1] == x);
                }
            }
            if o.contains(x) {
                let t = choose|t: int| 0 <= t < o.len() && o[t] == x;
                if t < o.len() - 1 {
                    assert(init[t] == x);
                    assert(ri.contains(x));
                    let u = choose|u: int| 0 <= u < ri.len() && ri[u] == x;
                    assert(r[u] == x);
                } else {
                    assert(r[r.len() - 1] == x);
                }
            }
            if x == v {
                assert(ri.contains(v));
                let u = choose|u: int| 0 <= u < ri.len() && ri[u] == v;
                assert(r[u] == v);
            }
        }
    }
}

proof fn lemma_mount_order_upto(parts: Seq<Partition>, k: nat)
    ensures
        in_mount_order(parts, mount_order_upto(parts, k)),
        mount_order_upto(parts, k).len() == k,
        forall|x: nat| #[trigger] mount_order_upto(parts, k).contains(x) <==> 1 <= x <= k,
    decreases k,
{
    if k > 0 {
        let prev = mount_order_upto(parts, (k - 1) as nat);
        lemma_mount_order_upto(parts, (k - 1) as nat);
        lemma_insert_in_order(parts, prev, k);
    }
}

/// The mount order lists every partition number once, and each partition is
/// listed before every partition that it mounts before.
pub proof fn lemma_mount_order_sorted(layout: PartitionLayout)
    ensures
        mount_order(layout.partitions@).len() == layout.partitions@.len(),
        forall|x: nat|
            #[trigger] mount_order(layout.partitions@).contains(x) <==> 1 <= x
                <= layout.partitions@.len(),
        in_mount_order(layout.partitions@, mount_order(layout.partitions@)),
{
    lemma_mount_order_upto(layout.partitions@, layout.partitions@.len());
}

/// Class and depth of a mountpoint, computed once per partition.
struct MountKey {
    class: u8,
    depth: usize,
}

fn trimmed_len(m: &str) -> (e: usize)
    ensures
        e <= m@.len(),
        trim_trailing_slashes(m@) == m@.subrange(0, e as int),
{
    let n = m.unicode_len();
    let mut e: usize = n;
    assert(m@.subrange(0, n as int) =~= m@);
    while e > 0 && m.get_char(e - 1) == '/'
        invariant
            e <= n,
            n == m@.len(),
            trim_trailing_slashes(m@) == trim_trailing_slashes(m@.subrange(0, e as int)),
        decreases e,
    {
        assert(m@.subrange(0, e as int).drop_last() =~= m@.subrange(0, e - 1));
        e = e - 1;
    }
    e
}

fn slashes_before(m: &str, e: usize) -> (c: usize)
    requires
        e <= m@.len(),
    ensures
        c as nat == count_slashes(m@.subrange(0, e as int)),
{
    let mut c: usize = 0;
    let mut i: usize = 0;
    while i < e
        invariant
            i <= e,
            e <= m@.len(),
            c as nat == count_slashes(m@.subrange(0, i as int)),
            c <= i,
        decreases e - i,
    {
        assert(m@.subrange(0, i + 1).drop_last() =~= m@.subrange(0, i as int));
        if m.get_char(i) == '/' {
            c = c + 1;
        }
        i = i + 1;
    }
    c
}

fn mount_key(m: &str) -> (r: MountKey)
    ensures
        r.class as nat == mount_class(m@),
        r.depth as nat == mount_depth(m@),
{
    let e = trimmed_len(m);
    let depth = slashes_before(m, e);
    let n = m.unicode_len();
    let class: u8 = if n == 0 {
        0
    } else if n == 1 && m.get_char(0) == '/' {
        assert(m@ =~= seq!['/']);
        1
    } else {
        assert(m@ != seq!['/']);
        2
    };
    MountKey { class, depth }
}

/// The partition numbered `w` (key `kw`) mounts before the one numbered `v`.
fn key_before(kw: &MountKey, mw: &str, w: usize, kv: &MountKey, mv: &str, v: usize) -> (r: bool)
    requires
        kw.class as nat == mount_class(mw@),
        kw.depth as nat == mount_depth(mw@),
        kv.class as nat == mount_class(mv@),
        kv.depth as nat == mount_depth(mv@),
    ensures
        r == mounts_before(mw@, w as nat, mv@, v as nat),
{
    if kw.class != kv.class {
        kw.class < kv.class
    } else if kw.depth != kv.depth {
        kw.depth < kv.depth
    } else if !str_eq(mw, mv) {
        str_lt(mw, mv)
    } else {
        w < v
    }
}


// ---------------------------------------------------------------------------
// Mounting
/// A partition that is mounted: it has a real mountpoint and a mountable filesystem.
pub open spec fn is_mounted(p: Partition) -> bool {
    !(p.mountpoint@.len() == 0 || p.mountpoint@ == "-"@ || p.filesystem@ == "none"@
        || p.filesystem@ == "swap"@)
}

/// The mountpoint without its leading slashes: the target below the chroot.
pub open spec fn trim_leading_slashes(m: Seq<char>) -> Seq<char>
    decreases m.len(),
{
    if m.len() > 0 && m[0] == '/' {
        trim_leading_slashes(m.drop_first())
    } else {
        m
    }
}

/// The (device, target) pairs that mounting the partitions numbered by `o`
/// performs, in the order of `o`.
pub open spec fn mount_steps_of(parts: Seq<Partition>, disk: Seq<char>, o: Seq<nat>) -> Seq<
    (Seq<char>, Seq<char>),
>
    decreases o.len(),
{
    if o.len() == 0 {
        Seq::empty()
    } else {
        let rest = mount_steps_of(parts, disk, o.drop_last());
        let p = parts[o.last() - 1];
        if is_mounted(p) {
            rest.push((device_name(disk, o.last()), trim_leading_slashes(p.mountpoint@)))
        } else {
            rest
        }
    }
}

/// The targets that unmounting the partitions numbered by `o` visits, walking `o`
/// from its end.
pub open spec fn unmount_targets_of(parts: Seq<Partition>, o: Seq<nat>) -> Seq<Seq<char>>
    decreases o.len(),
{
    if o.len() == 0 {
        Seq::empty()
    } else {
        let rest = unmount_targets_of(parts, o.drop_first());
        let p = parts[o[0] - 1];
        if is_mounted(p) {
            rest.push(trim_leading_slashes(p.mountpoint@))
        } else {
            rest
        }
    }
}

/// The targets of a sequence of mounts.
pub open spec fn step_targets(steps: Seq<(Seq<char>, Seq<char>)>) -> Seq<Seq<char>> {
    steps.map_values(|st: (Seq<char>, Seq<char>)| st.1)
}

/// The mounts of a layout on `disk`, in mount order.
pub open spec fn mount_steps(parts: Seq<Partition>, disk: Seq<char>) -> Seq<(Seq<char>, Seq<char>)> {
    mount_steps_of(parts, disk, mount_order(parts))
}

/// The unmounts of a layout, in the order they are performed.
pub open spec fn unmount_targets(parts: Seq<Partition>) -> Seq<Seq<char>> {
    unmount_targets_of(parts, mount_order(parts))
}

proof fn lemma_unmount_reverses(parts: Seq<Partition>, disk: Seq<char>, o: Seq<nat>)
    ensures
        unmount_targets_of(parts, o) == step_targets(mount_steps_of(parts, disk, o)).reverse(),
    decreases o.len(),
{
    if o.len() > 0 {
        let p = parts[o[0] - 1];
        let tail = o.drop_first();
        lemma_unmount_reverses(parts, disk, tail);
        lemma_steps_prepend(parts, disk, o);
        let t = trim_leading_slashes(p.mountpoint@);
        let rest = step_targets(mount_steps_of(parts, disk, tail));
        let one = mount_steps_of(parts, disk, seq![o[0]]);
        assert(seq![o[0]].drop_last() =~= Seq::<nat>::empty());
        assert(seq![o[0]].last() == o[0]);
        assert(mount_steps_of(parts, disk, Seq::<nat>::empty()) == Seq::<(Seq<char>, Seq<char>)>::empty());
        assert(step_targets(one + mount_steps_of(parts, disk, tail)) =~= step_targets(one) + rest);
        if is_mounted(p) {
            assert(step_targets(one) =~= seq![t]);
            assert(step_targets(mount_steps_of(parts, disk, o)) =~= seq![t] + rest);
            assert((seq![t] + rest).reverse() =~= rest.reverse().push(t));
        } else {
            assert(step_targets(one) =~= Seq::<Seq<char>>::empty());
            assert(step_targets(mount_steps_of(parts, disk, o)) =~= rest);
        }
    }
}

/// Mount steps of `o` are those of its first entry followed by those of the rest.
proof fn lemma_steps_prepend(parts: Seq<Partition>, disk: Seq<char>, o: Seq<nat>)
    requires
        o.len() > 0,
    ensures
        mount_steps_of(parts, disk, o) == mount_steps_of(parts, disk, seq![o[0]]) + mount_steps_of(
            parts,
            disk,
            o.drop_first(),
        ),
    decreases o.len(),
{
    if o.len() == 1 {
        assert(o =~= seq![o[0]]);
        assert(o.drop_first() =~= Seq::<nat>::empty());
        assert(mount_steps_of(parts, disk, o) =~= mount_steps_of(parts, disk, seq![o[0]]) + Seq::empty());
    } else {
        let init = o.drop_last();
        lemma_steps_prepend(parts, disk, init);
        assert(init.drop_first() =~= o.drop_first().drop_last());
        assert(init[0] == o[0]);
        assert(o.drop_first().last() == o.last());
        assert(mount_steps_of(parts, disk, o) =~= mount_steps_of(parts, disk, seq![o[0]])
            + mount_steps_of(parts, disk, o.drop_first()));
    }
}

/// Unmounting visits exactly the mounted targets, in the reverse of the order
/// in which they were mounted.
pub proof fn lemma_unmount_is_reverse_of_mount(layout: PartitionLayout, disk: Seq<char>)
    ensures
        unmount_targets(layout.partitions@) == step_targets(
            mount_steps(layout.partitions@, disk),
        ).reverse(),
{
    lemma_unmount_reverses(layout.partitions@, disk, mount_order(layout.partitions@));
}

/// One mount: the partition device and the directory below the chroot.
#[derive(Clone, Debug, PartialEq, Eq)]
pub struct MountStep {
    pub device: String,
    /// The mountpoint relative to the chroot (no leading slash).
    pub target: String,
}

fn mounted(p: &Partition) -> (r: bool)
    ensures
        r == is_mounted(*p),
{
    !(p.mountpoint.as_str().unicode_len() == 0 || str_eq(p.mountpoint.as_str(), "-") || str_eq(
        p.filesystem.as_str(),
        "none",
    ) || str_eq(p.filesystem.as_str(), "swap"))
}

fn strip_leading_slashes(m: &str) -> (r: String)
    ensures
        r@ == trim_leading_slashes(m@),
{
    let n = m.unicode_len();
    let mut i: usize = 0;
    assert(m@.skip(0) =~= m@);
    while i < n && m.get_char(i) == '/'
        invariant
            i <= n,
            n == m@.len(),
            trim_leading_slashes(m@) == trim_leading_slashes(m@.skip(i as int)),
        decreases n - i,
    {
        assert(m@.skip(i as int).drop_first() =~= m@.skip(i + 1));
        i = i + 1;
    }
    assert(m@.subrange(i as int, n as int) =~= m@.skip(i as int));
    String::from_str(m.substring_char(i, n))
}


// ---------------------------------------------------------------------------
// Applying a layout to a disk
/// Bytes in a mebibyte, the unit the partitioning tool is given.
pub const MIB: u64 = 1048576;

/// The bytes taken by the sized partitions among the first `k`.
pub open spec fn used_before(parts: Seq<Partition>, k: nat) -> nat
    decreases k,
{
    if k == 0 || k > parts.len() {
        0
    } else {
        used_before(parts, (k - 1) as nat) + match parts[k - 1].size {
            Some(s) => s as nat,
            None => 0nat,
        }
    }
}

proof fn lemma_used_before_grows(parts: Seq<Partition>, j: nat, k: nat)
    requires
        j <= k <= parts.len(),
    ensures
        used_before(parts, j) <= used_before(parts, k),
    decreases k - j,
{
    if j < k {
        lemma_used_before_grows(parts, j, (k - 1) as nat);
    }
}

/// One end of a partition as the partitioning tool takes it.
#[derive(Clone, Copy, Debug, PartialEq, Eq, Structural)]
pub enum PartBound {
    /// The start of the disk, `0`.
    Zero,
    /// An offset in MiB, `{n}MiB`.
    MiB(u64),
    /// The end of the disk, `100%`.
    Full,
}

/// Where the partition at position `k` starts.
pub open spec fn start_bound(parts: Seq<Partition>, k: nat) -> PartBound {
    if k == 0 {
        PartBound::Zero
    } else {
        PartBound::MiB((used_before(parts, k) / (MIB as nat)) as u64)
    }
}

/// Where the partition at position `k` ends.
pub open spec fn end_bound(parts: Seq<Partition>, k: nat) -> PartBound {
    match parts[k as int].size {
        Some(s) => PartBound::MiB(((used_before(parts, k) + s as nat) / (MIB as nat)) as u64),
        None => PartBound::Full,
    }
}

/// How a partition is formatted.
#[derive(Clone, Debug, PartialEq, Eq)]
pub enum FormatKind {
    /// FAT32, for a partition of filesystem `efi`.
    Fat32,
    /// Not formatted, for filesystem `none`.
    Skip,
    /// `mkfs.<name>` for any other filesystem name.
    Mkfs(String),
}

pub open spec fn format_for(f: FormatKind, fs: Seq<char>) -> bool {
    if fs == "efi"@ {
        f is Fat32
    } else if fs == "none"@ {
        f is Skip
    } else {
        f matches FormatKind::Mkfs(n) && n@ == fs
    }
}

/// Everything done to create and format one partition, in this order: create
/// it between `start` and `end`, set its type GUID, set each attribute bit,
/// set the ESP flag if `esp`, name it if it has a label, refresh the kernel's
/// partition table, format it.
#[derive(Clone, Debug, PartialEq, Eq)]
pub struct PartitionPlan {
    /// The partition number, its 1-based position in the layout.
    pub index: usize,
    pub device: String,
    pub start: PartBound,
    pub end: PartBound,
    pub type_guid: String,
    pub attribute_bits: Vec<u8>,
    pub esp: bool,
    pub label: Option<String>,
    pub format: FormatKind,
}

/// The flags declared on a partition, none if absent.
pub open spec fn flag_seq(p: Partition) -> Seq<PartitionFlag> {
    match p.flags {
        Some(f) => f@,
        None => Seq::empty(),
    }
}

/// The type and every flag of a partition resolve on `arch`.
pub open spec fn resolves(p: Partition, arch: Seq<char>) -> bool {
    type_guid(p.partition_type, arch) is Some && forall|j: int|
        0 <= j < flag_seq(p).len() ==> flag_bit(#[trigger] flag_seq(p)[j]) is Some
}

/// `e` is the error reported for a partition that does not resolve: its type
/// first, then its first invalid flag.
pub open spec fn resolve_error(p: Partition, arch: Seq<char>, e: LayoutError) -> bool {
    if type_guid(p.partition_type, arch) is None {
        is_arch_error(e, arch)
    } else {
        exists|j: int|
            0 <= j < flag_seq(p).len() && flag_bit(#[trigger] flag_seq(p)[j]) is None && (forall|
                i: int,
            |
                0 <= i < j ==> flag_bit(#[trigger] flag_seq(p)[i]) is Some) && (e matches LayoutError::InvalidFlag(
                x,
            ) && flag_seq(p)[j] == PartitionFlag::FlagPosition(x))
    }
}

/// `pl` is the plan for the partition at position `k`.
pub open spec fn plans_partition(
    pl: PartitionPlan,
    parts: Seq<Partition>,
    k: nat,
    disk: Seq<char>,
    arch: Seq<char>,
) -> bool {
    let p = parts[k as int];
    &&& pl.index == k + 1
    &&& pl.device@ == device_name(disk, k + 1)
    &&& pl.start == start_bound(parts, k)
    &&& pl.end == end_bound(parts, k)
    &&& type_guid(p.partition_type, arch) == Some(pl.type_guid@)
    &&& pl.attribute_bits@.len() == flag_seq(p).len()
    &&& forall|j: int|
        0 <= j < flag_seq(p).len() ==> flag_bit(#[trigger] flag_seq(p)[j]) == Some(
            pl.attribute_bits@[j],
        )
    &&& pl.esp == (p.filesystem@ == "efi"@)
    &&& opt_view(pl.label) == opt_view(p.label)
    &&& format_for(pl.format, p.filesystem@)
}

fn attribute_bits(p: &Partition) -> (r: Result<Vec<u8>, LayoutError>)
    ensures
        match r {
            Ok(bits) => bits@.len() == flag_seq(*p).len() && forall|j: int|
                0 <= j < flag_seq(*p).len() ==> flag_bit(#[trigger] flag_seq(*p)[j]) == Some(
                    bits@[j],
                ),
            Err(e) => exists|j: int|
                0 <= j < flag_seq(*p).len() && flag_bit(#[trigger] flag_seq(*p)[j]) is None && (
                forall|i: int| 0 <= i < j ==> flag_bit(#[trigger] flag_seq(*p)[i]) is Some) && (e matches LayoutError::InvalidFlag(
                    x,
                ) && flag_seq(*p)[j] == PartitionFlag::FlagPosition(x)),
        },
{
    let mut bits: Vec<u8> = Vec::new();
    match &p.flags {
        Some(flags) => {
            let mut j: usize = 0;
            while j < flags.len()
                invariant
                    flag_seq(*p) == flags@,
                    j <= flags@.len(),
                    bits@.len() == j,
                    forall|i: int| 0 <= i < j ==> flag_bit(#[trigger] flags@[i]) == Some(bits@[i]),
                decreases flags@.len() - j,
            {
                match flags[j].flag_position() {
                    Ok(b) => bits.push(b),
                    Err(e) => {
                        assert(flag_bit(flags@[j as int]) is None);
                        return Err(e);
                    },
                }
                j = j + 1;
            }
            Ok(bits)
        },
        None => Ok(bits),
    }
}


// ---------------------------------------------------------------------------
// fstab
/// What fstab needs of one mounted partition, before its UUID is known.
#[derive(Clone, Debug, PartialEq, Eq)]
pub struct FstabEntry {
    /// The mountpoint relative to the chroot, where the UUID is looked up.
    pub target: String,
    /// The mountpoint as declared.
    pub mountpoint: String,
    /// The filesystem as fstab names it.
    pub fsname: String,
    /// The fsck pass number.
    pub fsck: u8,
}

/// (target, mountpoint, fsname, fsck) of a mounted partition.
pub open spec fn fstab_entry_of(p: Partition) -> (Seq<char>, Seq<char>, Seq<char>, u8) {
    let efi = p.filesystem@ == "efi"@;
    (
        trim_leading_slashes(p.mountpoint@),
        p.mountpoint@,
        if efi {
            "vfat"@
        } else {
            p.filesystem@
        },
        if efi {
            0u8
        } else {
            2u8
        },
    )
}

/// The fstab entries of the partitions numbered by `o`, in the order of `o`.
pub open spec fn fstab_entries_of(parts: Seq<Partition>, o: Seq<nat>) -> Seq<
    (Seq<char>, Seq<char>, Seq<char>, u8),
>
    decreases o.len(),
{
    if o.len() == 0 {
        Seq::empty()
    } else {
        let rest = fstab_entries_of(parts, o.drop_last());
        let p = parts[o.last() - 1];
        if is_mounted(p) {
            rest.push(fstab_entry_of(p))
        } else {
            rest
        }
    }
}

/// The fields of an fstab entry.
pub open spec fn entry_view(e: FstabEntry) -> (Seq<char>, Seq<char>, Seq<char>, u8) {
    (e.target@, e.mountpoint@, e.fsname@, e.fsck)
}

/// The first lines of a generated fstab.
pub const FSTAB_HEADER: &'static str = "# /etc/fstab: static file system information.\n# Written by the image builder; local changes are lost when the image is rebuilt.\n";

/// The fstab line of a mounted partition with filesystem UUID `uuid`.
pub open spec fn fstab_line(e: FstabEntry, uuid: Seq<char>) -> Seq<char> {
    "UUID="@ + uuid + "\t"@ + e.mountpoint@ + "\t"@ + e.fsname@ + "\tdefaults\t0\t"@ + decimal(
        e.fsck as nat,
    ) + "\n"@
}

/// The fstab lines of the first `k` entries.
pub open spec fn fstab_lines(entries: Seq<FstabEntry>, uuids: Seq<String>, k: nat) -> Seq<char>
    decreases k,
{
    if k == 0 {
        Seq::empty()
    } else {
        fstab_lines(entries, uuids, (k - 1) as nat) + fstab_line(entries[k - 1], uuids[k - 1]@)
    }
}

/// A generated fstab: the header, then one line per entry.
pub open spec fn fstab_text(entries: Seq<FstabEntry>, uuids: Seq<String>) -> Seq<char> {
    FSTAB_HEADER@ + fstab_lines(entries, uuids, entries.len())
}

/// The text of an fstab for `entries`, whose filesystem UUIDs are `uuids`, in order.
pub fn render_fstab(entries: &Vec<FstabEntry>, uuids: &Vec<String>) -> (r: String)
    requires
        entries@.len() == uuids@.len(),
    ensures
        r@ == fstab_text(entries@, uuids@),
{
    let mut r = String::from_str(FSTAB_HEADER);
    let mut k: usize = 0;
    while k < entries.len()
        invariant
            entries@.len() == uuids@.len(),
            k <= entries@.len(),
            r@ == FSTAB_HEADER@ + fstab_lines(entries@, uuids@, k as nat),
        decreases entries@.len() - k,
    {
        let e = &entries[k];
        let ghost before = r@;
        r.append("UUID=");
        r.append(uuids[k].as_str());
        r.append("\t");
        r.append(e.mountpoint.as_str());
        r.append("\t");
        r.append(e.fsname.as_str());
        r.append("\tdefaults\t0\t");
        let pass = decimal_text(e.fsck as u64);
        r.append(pass.as_str());
        r.append("\n");
        assert(r@ =~= before + fstab_line(entries@[k as int], uuids@[k as int]@));
        k = k + 1;
    }
    r
}

/// An ordered list of partitions; a partition's number is its 1-based
/// position in the list, whatever order it is mounted in.
#[derive(Clone, Debug, PartialEq, Eq, Default)]
pub struct PartitionLayout {
    /// Total disk size in bytes, if known.
    pub size: Option<u64>,
    pub partitions: Vec<Partition>,
}

impl PartitionLayout {
    /// The numbers of the partitions in mount order.
    pub fn mount_sequence(&self) -> (r: Vec<usize>)
        ensures
            r@.len() == self.partitions@.len(),
            as_nats(r@) == mount_order(self.partitions@),
            forall|k: int| 0 <= k < r@.len() ==> 1 <= #[trigger] r@[k] && r@[k] <= r@.len(),
    {
        let n = self.partitions.len();
        let mut keys: Vec<MountKey> = Vec::new();
        let mut i: usize = 0;
        while i < n
            invariant
                n == self.partitions@.len(),
                i <= n,
                keys@.len() == i,
                forall|k: int|
                    0 <= k < i ==> (#[trigger] keys@[k]).class as nat == mount_class(
                        self.partitions@[k].mountpoint@,
                    ) && keys@[k].depth as nat == mount_depth(self.partitions@[k].mountpoint@),
            decreases n - i,
        {
            keys.push(mount_key(self.partitions[i].mountpoint.as_str()));
            i = i + 1;
        }
        let ghost parts = self.partitions@;
        let mut o: Vec<usize> = Vec::new();
        let mut idx: usize = 0;
        while idx < n
            invariant
                n == parts.len(),
                parts == self.partitions@,
                idx <= n,
                1 <= idx + 1 <= n + 1,
                keys@.len() == n,
                forall|k: int|
                    0 <= k < n ==> (#[trigger] keys@[k]).class as nat == mount_class(
                        parts[k].mountpoint@,
                    ) && keys@[k].depth as nat == mount_depth(parts[k].mountpoint@),
                o@.len() == idx,
                forall|k: int| 0 <= k < o@.len() ==> 1 <= #[trigger] o@[k] <= idx,
                as_nats(o@) == mount_order_upto(parts, idx as nat),
            decreases n - idx,
        {
            let v = idx + 1;
            let ghost before = o@;
            let mut pos: usize = o.len();
            assert(before.subrange(0, pos as int) =~= before);
            assert(as_nats(before.subrange(pos as int, before.len() as int))
                =~= Seq::<nat>::empty());
            while pos > 0 && !key_before(
                &keys[o[pos - 1] - 1],
                self.partitions[o[pos - 1] - 1].mountpoint.as_str(),
                o[pos - 1],
                &keys[v - 1],
                self.partitions[v - 1].mountpoint.as_str(),
                v,
            )
                invariant
                    o@ == before,
                    pos <= before.len(),
                    n == parts.len(),
                    parts == self.partitions@,
                    1 <= v <= n,
                    keys@.len() == n,
                    forall|k: int|
                        0 <= k < n ==> (#[trigger] keys@[k]).class as nat == mount_class(
                            parts[k].mountpoint@,
                        ) && keys@[k].depth as nat == mount_depth(parts[k].mountpoint@),
                    forall|k: int| 0 <= k < before.len() ==> 1 <= #[trigger] before[k] < v,
                    insert_in_order(parts, as_nats(before), v as nat)
                        == insert_in_order(
                        parts,
                        as_nats(before.subrange(0, pos as int)),
                        v as nat,
                    ) + as_nats(before.subrange(pos as int, before.len() as int)),
                decreases pos,
            {
                let ghost pre = as_nats(before.subrange(0, pos as int));
                assert(pre.drop_last() =~= as_nats(before.subrange(0, pos - 1)));
                assert(as_nats(before.subrange(pos - 1, before.len() as int))
                    =~= seq![pre.last()] + as_nats(before.subrange(pos as int, before.len() as int)));
                assert(insert_in_order(parts, pre, v as nat) == insert_in_order(
                    parts,
                    pre.drop_last(),
                    v as nat,
                ).push(pre.last()));
                assert(insert_in_order(parts, pre.drop_last(), v as nat).push(pre.last())
                    + as_nats(before.subrange(pos as int, before.len() as int)) =~= insert_in_order(parts, pre.drop_last(), v as nat)
                    + as_nats(before.subrange(pos - 1, before.len() as int)));
                pos = pos - 1;
            }
            proof {
                let pre = as_nats(before.subrange(0, pos as int));
                assert(insert_in_order(parts, pre, v as nat) =~= pre.push(v as nat));
                assert(mount_order_upto(parts, v as nat) == insert_in_order(
                    parts,
                    mount_order_upto(parts, (v - 1) as nat),
                    v as nat,
                ));
            }
            o.insert(pos, v);
            assert(as_nats(o@) =~= mount_order_upto(parts, v as nat));
            idx = idx + 1;
        }
        o
    }

    /// The partitions in mount order, each with its number in declaration order.
    pub fn sort_partitions(&self) -> (r: Vec<(usize, Partition)>)
        ensures
            r@.len() == self.partitions@.len(),
            forall|k: int|
                0 <= k < r@.len() ==> (#[trigger] r@[k]).0 as nat == mount_order(
                    self.partitions@,
                )[k] && (1 <= r@[k].0 && r@[k].0 <= r@.len()) && r@[k].1@ == self.partitions@[r@[k].0 - 1]@,
            forall|x: int, y: int|
                0 <= x < y < r@.len() ==> mounts_before(
                    (#[trigger] r@[x]).1.mountpoint@,
                    r@[x].0 as nat,
                    (#[trigger] r@[y]).1.mountpoint@,
                    r@[y].0 as nat,
                ),
    {
        let order = self.mount_sequence();
        let mut r: Vec<(usize, Partition)> = Vec::new();
        let mut k: usize = 0;
        while k < order.len()
            invariant
                order@.len() == self.partitions@.len(),
                as_nats(order@) == mount_order(self.partitions@),
                forall|j: int|
                    0 <= j < order@.len() ==> 1 <= #[trigger] order@[j] && order@[j] <= order@.len(),
                k <= order@.len(),
                r@.len() == k,
                forall|j: int|
                    0 <= j < k ==> (#[trigger] r@[j]).0 == order@[j] && r@[j].1@
                        == self.partitions@[r@[j].0 - 1]@,
            decreases order@.len() - k,
        {
            let v = order[k];
            assert(as_nats(order@)[k as int] == mount_order(self.partitions@)[k as int]);
            r.push((v, self.partitions[v - 1].duplicate()));
            k = k + 1;
        }
        proof {
            lemma_mount_order_sorted(*self);
            let o = mount_order(self.partitions@);
            assert forall|x: int, y: int| 0 <= x < y < r@.len() implies mounts_before(
                (#[trigger] r@[x]).1.mountpoint@,
                r@[x].0 as nat,
                (#[trigger] r@[y]).1.mountpoint@,
                r@[y].0 as nat,
            ) by {
                assert(as_nats(order@)[x] == o[x]);
                assert(as_nats(order@)[y] == o[y]);
                assert(before_in(self.partitions@, o[x], o[y]));
            }
        }
        r
    }
    /// The mounts that put this layout on `disk` into a chroot, shallow to deep;
    /// partitions without a mountpoint, or with filesystem `none` or `swap`, are skipped.
    pub fn mount_plan(&self, disk: &str) -> (r: Vec<MountStep>)
        ensures
            r@.map_values(|st: MountStep| (st.device@, st.target@)) == mount_steps(
                self.partitions@,
                disk@,
            ),
    {
        let order = self.mount_sequence();
        let ghost o = mount_order(self.partitions@);
        let mut r: Vec<MountStep> = Vec::new();
        let mut k: usize = 0;
        assert(o.subrange(0, 0) =~= Seq::<nat>::empty());
        while k < order.len()
            invariant
                order@.len() == self.partitions@.len(),
                o == mount_order(self.partitions@),
                o.len() == order@.len(),
                as_nats(order@) == o,
                forall|j: int|
                    0 <= j < order@.len() ==> 1 <= #[trigger] order@[j] && order@[j] <= order@.len(),
                k <= order@.len(),
                r@.map_values(|st: MountStep| (st.device@, st.target@)) == mount_steps_of(
                    self.partitions@,
                    disk@,
                    o.subrange(0, k as int),
                ),
            decreases order@.len() - k,
        {
            let v = order[k];
            assert(as_nats(order@)[k as int] == o[k as int]);
            let p = &self.partitions[v - 1];
            assert(o.subrange(0, k + 1).drop_last() =~= o.subrange(0, k as int));
            let ghost prev = r@;
            if mounted(p) {
                let device = crate::partition::partition_name(disk, v);
                let target = strip_leading_slashes(p.mountpoint.as_str());
                r.push(MountStep { device, target });
                assert(r@.map_values(|st: MountStep| (st.device@, st.target@)) =~= prev.map_values(
                    |st: MountStep| (st.device@, st.target@),
                ).push((device_name(disk@, v as nat), trim_leading_slashes(p.mountpoint@))));
            }
            k = k + 1;
        }
        assert(o.subrange(0, k as int) =~= o);
        r
    }

    /// The chroot-relative targets to unmount, deepest first: the mounts of
    /// `mount_plan` in reverse.
    pub fn unmount_plan(&self) -> (r: Vec<String>)
        ensures
            r@.map_values(|t: String| t@) == unmount_targets(self.partitions@),
    {
        let order = self.mount_sequence();
        let ghost o = mount_order(self.partitions@);
        let mut r: Vec<String> = Vec::new();
        let mut k: usize = order.len();
        assert(o.subrange(o.len() as int, o.len() as int) =~= Seq::<nat>::empty());
        while k > 0
            invariant
                order@.len() == self.partitions@.len(),
                o == mount_order(self.partitions@),
                o.len() == order@.len(),
                as_nats(order@) == o,
                forall|j: int|
                    0 <= j < order@.len() ==> 1 <= #[trigger] order@[j] && order@[j] <= order@.len(),
                k <= order@.len(),
                r@.map_values(|t: String| t@) == unmount_targets_of(
                    self.partitions@,
                    o.subrange(k as int, o.len() as int),
                ),
            decreases k,
        {
            let v = order[k - 1];
            assert(as_nats(order@)[k - 1] == o[k - 1]);
            let p = &self.partitions[v - 1];
            assert(o.subrange(k - 1, o.len() as int).drop_first() =~= o.subrange(
                k as int,
                o.len() as int,
            ));
            let ghost prev = r@;
            if mounted(p) {
                let target = strip_leading_slashes(p.mountpoint.as_str());
                r.push(target);
                assert(r@.map_values(|t: String| t@) =~= prev.map_values(|t: String| t@).push(
                    trim_leading_slashes(p.mountpoint@),
                ));
            }
            k = k - 1;
        }
        assert(o.subrange(0, o.len() as int) =~= o);
        r
    }
    /// The plan that applies this layout to `disk`, one entry per partition in
    /// declaration order, after the disk gets a fresh GPT label. Nothing is
    /// planned if a partition's type or a flag does not resolve on `target_arch`.
    pub fn apply_plan(&self, disk: &str, target_arch: &str) -> (r: Result<Vec<PartitionPlan>, LayoutError>)
        requires
            used_before(self.partitions@, self.partitions@.len()) <= u64::MAX,
        ensures
            match r {
                Ok(plans) => {
                    &&& forall|k: int|
                        0 <= k < self.partitions@.len() ==> resolves(
                            #[trigger] self.partitions@[k],
                            target_arch@,
                        )
                    &&& plans@.len() == self.partitions@.len()
                    &&& forall|k: int|
                        0 <= k < plans@.len() ==> plans_partition(
                            #[trigger] plans@[k],
                            self.partitions@,
                            k as nat,
                            disk@,
                            target_arch@,
                        )
                },
                Err(e) => exists|k: int|
                    0 <= k < self.partitions@.len() && !resolves(
                        #[trigger] self.partitions@[k],
                        target_arch@,
                    ) && (forall|i: int|
                        0 <= i < k ==> resolves(#[trigger] self.partitions@[i], target_arch@))
                        && resolve_error(self.partitions@[k], target_arch@, e),
            },
    {
        let ghost parts = self.partitions@;
        let n = self.partitions.len();
        let mut plans: Vec<PartitionPlan> = Vec::new();
        let mut last_end: u64 = 0;
        let mut k: usize = 0;
        while k < n
            invariant
                parts == self.partitions@,
                n == parts.len(),
                used_before(parts, n as nat) <= u64::MAX,
                k <= n,
                last_end as nat == used_before(parts, k as nat),
                plans@.len() == k,
                forall|i: int| 0 <= i < k ==> resolves(#[trigger] parts[i], target_arch@),
                forall|i: int|
                    0 <= i < k ==> plans_partition(
                        #[trigger] plans@[i],
                        parts,
                        i as nat,
                        disk@,
                        target_arch@,
                    ),
            decreases n - k,
        {
            let p = &self.partitions[k];
            let type_guid = match p.partition_type.uuid(target_arch) {
                Ok(g) => g,
                Err(e) => {
                    assert(!resolves(parts[k as int], target_arch@));
                    return Err(e);
                },
            };
            let bits = match attribute_bits(p) {
                Ok(b) => b,
                Err(e) => {
                    assert(!resolves(parts[k as int], target_arch@));
                    return Err(e);
                },
            };
            let start = if k == 0 {
                PartBound::Zero
            } else {
                PartBound::MiB(last_end / MIB)
            };
            proof {
                lemma_used_before_grows(parts, (k + 1) as nat, n as nat);
            }
            let end = match p.size {
                Some(s) => {
                    last_end = last_end + s;
                    PartBound::MiB(last_end / MIB)
                },
                None => PartBound::Full,
            };
            let esp = str_eq(p.filesystem.as_str(), "efi");
            let format = if esp {
                FormatKind::Fat32
            } else if str_eq(p.filesystem.as_str(), "none") {
                FormatKind::Skip
            } else {
                FormatKind::Mkfs(p.filesystem.clone())
            };
            let plan = PartitionPlan {
                index: k + 1,
                device: crate::partition::partition_name(disk, k + 1),
                start,
                end,
                type_guid,
                attribute_bits: bits,
                esp,
                label: copy_opt_string(&p.label),
                format,
            };
            assert(plans_partition(plan, parts, k as nat, disk@, target_arch@));
            plans.push(plan);
            k = k + 1;
        }
        Ok(plans)
    }
    /// The fstab entries of the mounted partitions, shallow to deep.
    pub fn fstab_entries(&self) -> (r: Vec<FstabEntry>)
        ensures
            r@.map_values(|e: FstabEntry| entry_view(e)) == fstab_entries_of(
                self.partitions@,
                mount_order(self.partitions@),
            ),
    {
        let order = self.mount_sequence();
        let ghost o = mount_order(self.partitions@);
        let mut r: Vec<FstabEntry> = Vec::new();
        let mut k: usize = 0;
        assert(o.subrange(0, 0) =~= Seq::<nat>::empty());
        while k < order.len()
            invariant
                order@.len() == self.partitions@.len(),
                o == mount_order(self.partitions@),
                o.len() == order@.len(),
                as_nats(order@) == o,
                forall|j: int|
                    0 <= j < order@.len() ==> 1 <= #[trigger] order@[j] && order@[j] <= order@.len(),
                k <= order@.len(),
                r@.map_values(|e: FstabEntry| entry_view(e)) == fstab_entries_of(
                    self.partitions@,
                    o.subrange(0, k as int),
                ),
            decreases order@.len() - k,
        {
            let v = order[k];
            assert(as_nats(order@)[k as int] == o[k as int]);
            let p = &self.partitions[v - 1];
            assert(o.subrange(0, k + 1).drop_last() =~= o.subrange(0, k as int));
            let ghost prev = r@;
            if mounted(p) {
                let efi = str_eq(p.filesystem.as_str(), "efi");
                let fsname = if efi {
                    String::from_str("vfat")
                } else {
                    p.filesystem.clone()
                };
                let fsck: u8 = if efi {
                    0
                } else {
                    2
                };
                let e = FstabEntry {
                    target: strip_leading_slashes(p.mountpoint.as_str()),
                    mountpoint: p.mountpoint.clone(),
                    fsname,
                    fsck,
                };
                r.push(e);
                assert(r@.map_values(|e: FstabEntry| entry_view(e)) =~= prev.map_values(
                    |e: FstabEntry| entry_view(e),
                ).push(fstab_entry_of(*p)));
            }
            k = k + 1;
        }
        assert(o.subrange(0, k as int) =~= o);
        r
    }
    /// An empty layout with no size hint.
    pub fn new() -> (r: Self)
        ensures
            r.size is None,
            r.partitions@.len() == 0,
    {
        PartitionLayout { size: None, partitions: Vec::new() }
    }

    /// Appends a partition; it gets the next number.
    pub fn add_partition(&mut self, partition: Partition)
        ensures
            final(self).partitions@ == old(self).partitions@.push(partition),
            final(self).size == old(self).size,
    {
        self.partitions.push(partition);
    }

    /// The number of the first partition mounted at `mountpoint`.
    pub fn get_index(&self, mountpoint: &str) -> (r: Option<usize>)
        ensures
            match r {
                Some(i) => 1 <= i <= self.partitions@.len() && self.partitions@[i - 1].mountpoint@
                    == mountpoint@ && forall|j: int|
                    0 <= j < i - 1 ==> (#[trigger] self.partitions@[j]).mountpoint@ != mountpoint@,
                None => forall|j: int|
                    0 <= j < self.partitions@.len() ==> (#[trigger] self.partitions@[j]).mountpoint@
                        != mountpoint@,
            },
    {
        let mut k: usize = 0;
        while k < self.partitions.len()
            invariant
                k <= self.partitions@.len(),
                forall|j: int|
                    0 <= j < k ==> (#[trigger] self.partitions@[j]).mountpoint@ != mountpoint@,
            decreases self.partitions@.len() - k,
        {
            if str_eq(self.partitions[k].mountpoint.as_str(), mountpoint) {
                return Some(k + 1);
            }
            k = k + 1;
        }
        None
    }

    /// The first partition mounted at `mountpoint`.
    pub fn get_partition(&self, mountpoint: &str) -> (r: Option<&Partition>)
        ensures
            match r {
                Some(p) => exists|i: int|
                    0 <= i < self.partitions@.len() && *p == self.partitions@[i] && p.mountpoint@
                        == mountpoint@ && forall|j: int|
                        0 <= j < i ==> (#[trigger] self.partitions@[j]).mountpoint@ != mountpoint@,
                None => forall|j: int|
                    0 <= j < self.partitions@.len() ==> (#[trigger] self.partitions@[j]).mountpoint@
                        != mountpoint@,
            },
    {
        match self.get_index(mountpoint) {
            Some(i) => Some(&self.partitions[i - 1]),
            None => None,
        }
    }
}

} // verus!
