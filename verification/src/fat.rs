//! Reading one file out of the FAT32 boot partition of a disk image.
//!
//! The reader is a state machine: it says which bytes of the image it needs
//! next, and goes on with them. What it comes to is stated over the whole
//! image.

use crate::bytes::{copy_range, le_half, le_word, push_all, read_le16, read_le32};
use crate::text::{
    eq_ignore_ascii_case, join, pieces, same_folded, split, to_uppercase, trim, trimmed, upper_form,
    views,
};
use vstd::prelude::*;
use vstd::slice::slice_subrange;

verus! {

/// Where the boot partition starts in an image.
pub const BOOT_OFFSET: u64 = 0x100_0000;

/// The first value of a file allocation table entry that ends a chain.
pub const CHAIN_END: u32 = 0x0FFF_FFF8;

/// Where the parts of the partition are.
#[derive(Debug, Clone, Copy, PartialEq, Eq, Structural)]
pub struct Geometry {
    pub cluster_size: u64,
    pub fat_start: u64,
    pub data_start: u64,
    pub root_cluster: u32,
}

impl Geometry {
    /// The numbers are small enough for every offset to be a `u64`.
    pub open spec fn wf(&self) -> bool {
        &&& 0 < self.cluster_size <= 0x100_0000
        &&& self.fat_start <= 0x2_0000_0000
        &&& self.data_start <= 0x100_0000_0000_0000
    }
}

/// The partition that a boot sector describes, or why it is none.
pub open spec fn geometry(b: Seq<u8>) -> Result<Geometry, Seq<char>> {
    let sector = le_half(b, 11) as int;
    let per_cluster = b[13] as int;
    let per_fat = le_word(b, 36) as int;
    if b[510] != 0x55 || b[511] != 0xAA {
        Err("Invalid boot sector signature"@)
    } else if sector == 0 || per_cluster == 0 || per_fat == 0 {
        Err("Invalid FAT32 BPB parameters"@)
    } else {
        let fat = BOOT_OFFSET + le_half(b, 14) * sector;
        Ok(
            Geometry {
                cluster_size: (sector * per_cluster) as u64,
                fat_start: fat as u64,
                data_start: (fat + b[16] * per_fat * sector) as u64,
                root_cluster: le_word(b, 44),
            },
        )
    }
}

/// Reads a boot sector.
pub fn parse_boot_sector(b: &[u8]) -> (r: Result<Geometry, String>)
    requires
        b@.len() == 512,
    ensures
        match r {
            Ok(g) => geometry(b@) == Ok::<Geometry, Seq<char>>(g) && g.wf(),
            Err(e) => geometry(b@) == Err::<Geometry, Seq<char>>(e@),
        },
{
    if b[510] != 0x55 || b[511] != 0xAA {
        return Err("Invalid boot sector signature".to_string());
    }
    let bytes_per_sector = read_le16(b, 11) as u64;
    let sectors_per_cluster = b[13] as u64;
    let reserved_sectors = read_le16(b, 14) as u64;
    let num_fats = b[16] as u64;
    let sectors_per_fat = read_le32(b, 36) as u64;
    let root_cluster = read_le32(b, 44);
    if bytes_per_sector == 0 || sectors_per_cluster == 0 || sectors_per_fat == 0 {
        return Err("Invalid FAT32 BPB parameters".to_string());
    }
    assert(0 < bytes_per_sector * sectors_per_cluster <= 0xffff * 0xff) by (nonlinear_arith)
        requires
            0 < bytes_per_sector <= 0xffff,
            0 < sectors_per_cluster <= 0xff,
    ;
    assert(reserved_sectors * bytes_per_sector <= 0xffff * 0xffff) by (nonlinear_arith)
        requires
            0 <= reserved_sectors <= 0xffff,
            0 <= bytes_per_sector <= 0xffff,
    ;
    assert(num_fats * sectors_per_fat <= 0xff * 0xffff_ffff) by (nonlinear_arith)
        requires
            0 <= num_fats <= 0xff,
            0 <= sectors_per_fat <= 0xffff_ffff,
    ;
    let fat_sectors = num_fats * sectors_per_fat;
    assert(fat_sectors * bytes_per_sector <= 0xff * 0xffff_ffff * 0xffff) by (nonlinear_arith)
        requires
            0 <= fat_sectors <= 0xff * 0xffff_ffff,
            0 <= bytes_per_sector <= 0xffff,
    ;
    let cluster_size = bytes_per_sector * sectors_per_cluster;
    let fat_start = BOOT_OFFSET + reserved_sectors * bytes_per_sector;
    let data_start = fat_start + fat_sectors * bytes_per_sector;
    Ok(Geometry { cluster_size, fat_start, data_start, root_cluster })
}

// ---------------------------------------------------------------------------
// Directories
// ---------------------------------------------------------------------------

/// A directory entry.
#[derive(Debug, Clone, Copy, PartialEq, Eq, Structural)]
pub struct Entry {
    pub cluster: u32,
    pub size: u32,
    pub is_dir: bool,
}

/// Where the `k`-th character stands in a long-name entry.
pub open spec fn lfn_offset(k: int) -> int {
    if k < 5 {
        1 + 2 * k
    } else if k < 11 {
        4 + 2 * k
    } else {
        6 + 2 * k
    }
}

/// The characters of a long-name entry from the `k`-th on. The name ends at a
/// zero or a filler; code units that are no character are left out.
pub open spec fn lfn_part(e: Seq<u8>, k: int) -> Seq<char>
    decreases 13 - k,
{
    if k >= 13 {
        Seq::empty()
    } else {
        let c = le_half(e, lfn_offset(k));
        if c == 0 || c == 0xFFFF {
            Seq::empty()
        } else if 0xD800 <= c <= 0xDFFF {
            lfn_part(e, k + 1)
        } else {
            seq![c as char] + lfn_part(e, k + 1)
        }
    }
}

/// The bytes taken as characters.
pub open spec fn latin(b: Seq<u8>) -> Seq<char> {
    b.map_values(|x: u8| x as char)
}

/// The short name of an entry, without its padding.
pub open spec fn short_name(e: Seq<u8>) -> Seq<char> {
    let base = trimmed(latin(e.subrange(0, 8)));
    let ext = trimmed(latin(e.subrange(8, 11)));
    if ext.len() == 0 {
        base
    } else {
        base + "."@ + ext
    }
}

pub open spec fn entry_of(e: Seq<u8>) -> Entry {
    Entry {
        cluster: (le_half(e, 20) * 0x1_0000 + le_half(e, 26)) as u32,
        size: le_word(e, 28),
        is_dir: e[11] / 16 % 2 == 1,
    }
}

/// The entry of a directory from `i` on that has the name whose capital form
/// is `upper`, after the long-name text `lfn`.
pub open spec fn scan(dir: Seq<u8>, i: int, lfn: Seq<char>, upper: Seq<char>) -> Option<Entry>
    decreases dir.len() - i,
{
    let e = dir.subrange(i, i + 32);
    if i + 32 > dir.len() || e[0] == 0 {
        None
    } else if e[0] == 0xE5 {
        scan(dir, i + 32, lfn, upper)
    } else if e[11] == 0x0F {
        let rest = if e[0] / 64 % 2 == 1 {
            Seq::empty()
        } else {
            lfn
        };
        scan(dir, i + 32, lfn_part(e, 0) + rest, upper)
    } else if lfn.len() > 0 && same_folded(lfn, upper) {
        Some(entry_of(e))
    } else if same_folded(upper_form(short_name(e)), upper) {
        Some(entry_of(e))
    } else {
        scan(dir, i + 32, Seq::empty(), upper)
    }
}

fn read_lfn(e: &[u8]) -> (r: String)
    requires
        e@.len() == 32,
    ensures
        r@ == lfn_part(e@, 0),
{
    let mut r = String::new();
    let mut k: usize = 0;
    assert(r@ =~= Seq::<char>::empty());
    assert(r@ + lfn_part(e@, 0) =~= lfn_part(e@, 0));
    while k < 13
        invariant
            e@.len() == 32,
            k <= 13,
            lfn_part(e@, 0) == r@ + lfn_part(e@, k as int),
        decreases 13 - k,
    {
        let at: usize = if k < 5 {
            1 + 2 * k
        } else if k < 11 {
            4 + 2 * k
        } else {
            6 + 2 * k
        };
        let c = read_le16(e, at);
        if c == 0 || c == 0xFFFF {
            assert(r@ + Seq::<char>::empty() =~= r@);
            return r;
        }
        let ghost before = r@;
        match char::from_u32(c as u32) {
            Some(ch) => {
                r.push(ch);
                assert(before + (seq![c as char] + lfn_part(e@, k + 1)) =~= r@ + lfn_part(
                    e@,
                    k + 1,
                ));
            },
            None => {},
        }
        k += 1;
    }
    assert(r@ + Seq::<char>::empty() =~= r@);
    r
}

fn latin_text(b: &[u8], from: usize, to: usize) -> (r: String)
    requires
        from <= to <= b@.len(),
    ensures
        r@ == latin(b@.subrange(from as int, to as int)),
{
    let mut r = String::new();
    let mut i: usize = from;
    while i < to
        invariant
            from <= i <= to <= b@.len(),
            r@ == latin(b@.subrange(from as int, i as int)),
        decreases to - i,
    {
        r.push(b[i] as char);
        assert(r@ =~= latin(b@.subrange(from as int, i + 1)));
        i += 1;
    }
    r
}

fn read_short_name(e: &[u8]) -> (r: String)
    requires
        e@.len() == 32,
    ensures
        r@ == short_name(e@),
{
    let base = trim(latin_text(e, 0, 8).as_str());
    let ext = trim(latin_text(e, 8, 11).as_str());
    if ext.as_str().is_empty() {
        base
    } else {
        join(join(base.as_str(), ".").as_str(), ext.as_str())
    }
}

fn read_entry(e: &[u8]) -> (r: Entry)
    requires
        e@.len() == 32,
    ensures
        r == entry_of(e@),
{
    let hi = read_le16(e, 20) as u32;
    let lo = read_le16(e, 26) as u32;
    Entry { cluster: hi * 0x1_0000 + lo, size: read_le32(e, 28), is_dir: e[11] / 16 % 2 == 1 }
}

/// The entry whose name has the capital form `name_upper`.
pub fn find_entry_upper(dir_data: &[u8], name_upper: &str) -> (r: Option<Entry>)
    ensures
        r == scan(dir_data@, 0, Seq::empty(), name_upper@),
{
    let mut lfn = String::new();
    let mut i: usize = 0;
    assert(lfn@ =~= Seq::<char>::empty());
    while dir_data.len() - i >= 32
        invariant
            i <= dir_data@.len(),
            scan(dir_data@, 0, Seq::empty(), name_upper@) == scan(
                dir_data@,
                i as int,
                lfn@,
                name_upper@,
            ),
        decreases dir_data@.len() - i,
    {
        let e = slice_subrange(dir_data, i, i + 32);
        if e[0] == 0 {
            return None;
        }
        if e[0] == 0xE5 {
            i += 32;
            continue;
        }
        if e[11] == 0x0F {
            let part = read_lfn(e);
            if e[0] / 64 % 2 == 1 {
                assert(part@ + Seq::<char>::empty() =~= part@);
                lfn = part;
            } else {
                lfn = join(part.as_str(), lfn.as_str());
            }
            i += 32;
            continue;
        }
        if !lfn.as_str().is_empty() && eq_ignore_ascii_case(lfn.as_str(), name_upper) {
            return Some(read_entry(e));
        }
        let short = to_uppercase(read_short_name(e).as_str());
        if eq_ignore_ascii_case(short.as_str(), name_upper) {
            return Some(read_entry(e));
        }
        lfn = String::new();
        assert(lfn@ =~= Seq::<char>::empty());
        i += 32;
    }
    None
}

/// The entry called `name` in a directory, whatever the case of the letters.
pub open spec fn entry_named(dir: Seq<u8>, name: Seq<char>) -> Option<Entry> {
    scan(dir, 0, Seq::empty(), upper_form(name))
}

/// The entry called `name` in a directory.
pub fn find_entry(dir_data: &[u8], name: &str) -> (r: Option<Entry>)
    ensures
        r == entry_named(dir_data@, name@),
{
    let upper = to_uppercase(name);
    find_entry_upper(dir_data, upper.as_str())
}

// ---------------------------------------------------------------------------
// Chains
// ---------------------------------------------------------------------------

/// The cluster belongs to a chain: it neither ends it nor is reserved.
pub open spec fn live(c: u32) -> bool {
    2 <= c < CHAIN_END
}

pub open spec fn cluster_offset(g: Geometry, c: u32) -> int {
    g.data_start + (c - 2) * g.cluster_size
}

pub open spec fn fat_offset(g: Geometry, c: u32) -> int {
    g.fat_start + c * 4
}

/// The cluster that a table entry names.
pub open spec fn next_cluster(b: Seq<u8>) -> u32 {
    le_word(b, 0) % 0x1000_0000
}

pub open spec fn read_fault(context: Seq<char>) -> Seq<char> {
    context + "failed to fill whole buffer"@
}

/// The data of the chain from `c` on, if it ends within `k` clusters: the
/// clusters one after the other, or the message of the first read behind the
/// end of the image.
pub open spec fn chain(img: Seq<u8>, g: Geometry, c: u32, k: nat) -> Option<
    Result<Seq<u8>, Seq<char>>,
>
    decreases k, 0int,
{
    let at = cluster_offset(g, c);
    if !live(c) {
        Some(Ok(Seq::empty()))
    } else if k == 0 {
        None
    } else if at + g.cluster_size > img.len() {
        Some(Err(read_fault("Data read: "@)))
    } else {
        match chain_on(img, g, c, (k - 1) as nat) {
            Some(Ok(d)) => Some(Ok(img.subrange(at, at + g.cluster_size) + d)),
            other => other,
        }
    }
}

/// The data of the chain behind `c`.
pub open spec fn chain_on(img: Seq<u8>, g: Geometry, c: u32, k: nat) -> Option<
    Result<Seq<u8>, Seq<char>>,
>
    decreases k, 1int,
{
    let at = fat_offset(g, c);
    if at + 4 > img.len() {
        Some(Err(read_fault("FAT read: "@)))
    } else {
        chain(img, g, next_cluster(img.subrange(at, at + 4)), k)
    }
}

// ---------------------------------------------------------------------------
// The way to the file
// ---------------------------------------------------------------------------

/// Which chain is being read: the root directory, the directory in which the
/// `n`-th part of the path is looked up, or the file, with its size.
#[derive(Debug, Clone, Copy, PartialEq, Eq, Structural)]
pub enum Stage {
    Root,
    Dir(usize),
    File(u32),
}

/// A file that was read: whole clusters, and the size in its entry.
pub struct FoundFile {
    pub data: Vec<u8>,
    pub size: u32,
}

#[verifier::ext_equal]
pub ghost struct FileView {
    pub data: Seq<u8>,
    pub size: u32,
}

/// What follows when a chain has been read.
pub ghost enum After {
    Stop(Result<FileView, Seq<char>>),
    Go(Stage, u32),
}

/// How many chains are still to be read behind this one.
pub open spec fn rank(path: Seq<char>, stage: Stage) -> nat {
    match stage {
        Stage::Root => pieces(path, '/').len() + 2,
        Stage::Dir(n) => if n < pieces(path, '/').len() {
            (pieces(path, '/').len() - n + 1) as nat
        } else {
            1
        },
        Stage::File(_) => 0,
    }
}

/// What follows when the chain of `stage` was `data`.
pub open spec fn after(path: Seq<char>, stage: Stage, data: Seq<u8>) -> After {
    let parts = pieces(path, '/');
    match stage {
        Stage::Root => match entry_named(data, "overlays"@) {
            Some(e) => if e.is_dir {
                After::Go(Stage::Dir(0), e.cluster)
            } else {
                After::Stop(Err("overlays is not a directory"@))
            },
            None => After::Stop(Err("overlays/ directory not found in boot partition"@)),
        },
        Stage::Dir(n) => if n + 1 < parts.len() {
            match entry_named(data, parts[n as int]) {
                Some(e) => if e.is_dir {
                    After::Go(Stage::Dir((n + 1) as usize), e.cluster)
                } else {
                    After::Stop(Err(parts[n as int] + " is not a directory"@))
                },
                None => After::Stop(Err("overlays/"@ + parts[n as int] + " not found"@)),
            }
        } else {
            match entry_named(data, parts.last()) {
                Some(e) => After::Go(Stage::File(e.size), e.cluster),
                None => After::Stop(Err("overlays/"@ + path + " not found"@)),
            }
        },
        Stage::File(size) => After::Stop(Ok(FileView { data, size })),
    }
}

/// How many clusters a chain can have: one that is longer comes back to a
/// cluster it has been at, and never ends.
pub open spec fn chain_limit() -> nat {
    CHAIN_END as nat
}

/// What is found from the chain of `stage` on that starts at `c`.
pub open spec fn found_from(img: Seq<u8>, g: Geometry, path: Seq<char>, stage: Stage, c: u32) -> Option<
    Result<FileView, Seq<char>>,
>
    decreases rank(path, stage), 0int,
{
    match chain(img, g, c, chain_limit()) {
        Some(Ok(d)) => found_after(img, g, path, stage, d),
        Some(Err(e)) => Some(Err(e)),
        None => None,
    }
}

/// What is found once the chain of `stage` was `d`.
pub open spec fn found_after(
    img: Seq<u8>,
    g: Geometry,
    path: Seq<char>,
    stage: Stage,
    d: Seq<u8>,
) -> Option<Result<FileView, Seq<char>>>
    decreases rank(path, stage),
{
    match after(path, stage, d) {
        After::Stop(r) => Some(r),
        After::Go(next, c) => if rank(path, next) < rank(path, stage) {
            match chain(img, g, c, chain_limit()) {
                Some(Ok(d2)) => found_after(img, g, path, next, d2),
                Some(Err(e)) => Some(Err(e)),
                None => None,
            }
        } else {
            None
        },
    }
}

/// The file `path` below `overlays` in the boot partition of an image, or
/// the message that says why there is none. `None`: a chain never ends.
pub open spec fn dtbo_in(img: Seq<u8>, path: Seq<char>) -> Option<Result<FileView, Seq<char>>> {
    if img.len() <= BOOT_OFFSET {
        Some(Err("Image too small — no BOOT partition"@))
    } else if img.len() < BOOT_OFFSET + 512 {
        Some(Err(read_fault("Read BPB error: "@)))
    } else {
        match geometry(img.subrange(BOOT_OFFSET as int, BOOT_OFFSET + 512)) {
            Ok(g) => found_from(img, g, path, Stage::Root, g.root_cluster),
            Err(e) => Some(Err(e)),
        }
    }
}

/// Where the reader is.
pub enum Progress {
    /// The boot sector is to be read.
    Boot,
    /// A cluster is to be read.
    Data { stage: Stage, cluster: u32, data: Vec<u8> },
    /// The table entry of a cluster is to be read.
    Table { stage: Stage, cluster: u32, data: Vec<u8> },
    /// The reader is done.
    Done(Result<FoundFile, String>),
}

pub ghost enum ProgressView {
    Boot,
    Data { stage: Stage, cluster: u32, data: Seq<u8> },
    Table { stage: Stage, cluster: u32, data: Seq<u8> },
    Done(Result<FileView, Seq<char>>),
}

impl Progress {
    pub open spec fn view(&self) -> ProgressView {
        match self {
            Progress::Boot => ProgressView::Boot,
            Progress::Data { stage, cluster, data } => ProgressView::Data {
                stage: *stage,
                cluster: *cluster,
                data: data@,
            },
            Progress::Table { stage, cluster, data } => ProgressView::Table {
                stage: *stage,
                cluster: *cluster,
                data: data@,
            },
            Progress::Done(Ok(f)) => ProgressView::Done(
                Ok(FileView { data: f.data@, size: f.size }),
            ),
            Progress::Done(Err(e)) => ProgressView::Done(Err(e@)),
        }
    }
}

/// A read that the reader asks for, and the words that go before the reason
/// if it fails.
pub struct Request {
    pub offset: u64,
    pub len: usize,
    pub context: String,
}

/// Reads one file of the boot partition.
pub struct Walk {
    path: String,
    parts: Vec<String>,
    geometry: Geometry,
    progress: Progress,
}

/// The next state at the start of a chain, or within one.
pub open spec fn entered(path: Seq<char>, stage: Stage, c: u32, data: Seq<u8>) -> ProgressView
    decreases rank(path, stage),
{
    if live(c) {
        ProgressView::Data { stage, cluster: c, data }
    } else {
        match after(path, stage, data) {
            After::Stop(r) => ProgressView::Done(r),
            After::Go(next, c2) => if rank(path, next) < rank(path, stage) {
                entered(path, next, c2, Seq::empty())
            } else {
                arbitrary()
            },
        }
    }
}

/// What the reader asks for: the offset, the length, and the words before a
/// reason.
pub open spec fn wanted(g: Geometry, p: ProgressView) -> Option<(int, int, Seq<char>)> {
    match p {
        ProgressView::Boot => Some((BOOT_OFFSET as int, 512, "Read BPB error: "@)),
        ProgressView::Data { cluster, .. } => Some(
            (cluster_offset(g, cluster), g.cluster_size as int, "Data read: "@),
        ),
        ProgressView::Table { cluster, .. } => Some((fat_offset(g, cluster), 4, "FAT read: "@)),
        ProgressView::Done(_) => None,
    }
}

/// The state after the bytes asked for have come.
pub open spec fn fed(g: Geometry, path: Seq<char>, p: ProgressView, b: Seq<u8>) -> (
    Geometry,
    ProgressView,
) {
    match p {
        ProgressView::Boot => match geometry(b) {
            Ok(g2) => (g2, entered(path, Stage::Root, g2.root_cluster, Seq::empty())),
            Err(e) => (g, ProgressView::Done(Err(e))),
        },
        ProgressView::Data { stage, cluster, data } => (
            g,
            ProgressView::Table { stage, cluster, data: data + b },
        ),
        ProgressView::Table { stage, cluster, data } => (
            g,
            entered(path, stage, next_cluster(b), data),
        ),
        ProgressView::Done(_) => (g, p),
    }
}

fn is_live(c: u32) -> (r: bool)
    ensures
        r == live(c),
{
    2 <= c && c < CHAIN_END
}

impl Walk {
    pub closed spec fn path(&self) -> Seq<char> {
        self.path@
    }

    pub closed spec fn layout(&self) -> Geometry {
        self.geometry
    }

    pub closed spec fn view(&self) -> ProgressView {
        self.progress@
    }

    pub closed spec fn wf(&self) -> bool {
        &&& self.geometry.wf()
        &&& views(self.parts@) == pieces(self.path@, '/')
        &&& 0 < self.parts@.len() <= usize::MAX
        &&& self.progress@ matches ProgressView::Data { cluster, .. } ==> live(cluster)
        &&& self.progress@ matches ProgressView::Table { cluster, .. } ==> live(cluster)
    }

    /// A reader for the file `panel_dtbo` of an image of `file_len` bytes.
    pub fn new(panel_dtbo: &str, file_len: u64) -> (r: Walk)
        ensures
            r.wf(),
            r.path() == panel_dtbo@,
            r@ == (if file_len <= BOOT_OFFSET {
                ProgressView::Done(Err("Image too small — no BOOT partition"@))
            } else {
                ProgressView::Boot
            }),
    {
        let parts = split(panel_dtbo, '/');
        assert(parts.len() <= usize::MAX);
        let progress = if file_len <= BOOT_OFFSET {
            Progress::Done(Err("Image too small — no BOOT partition".to_string()))
        } else {
            Progress::Boot
        };
        Walk {
            path: panel_dtbo.to_string(),
            parts,
            geometry: Geometry { cluster_size: 1, fat_start: 0, data_start: 0, root_cluster: 0 },
            progress,
        }
    }

    /// The read that is needed next; none when the reader is done.
    pub fn request(&self) -> (r: Option<Request>)
        requires
            self.wf(),
        ensures
            match r {
                Some(q) => wanted(self.layout(), self@) == Some(
                    (q.offset as int, q.len as int, q.context@),
                ),
                None => wanted(self.layout(), self@) is None,
            },
    {
        match &self.progress {
            Progress::Boot => Some(
                Request { offset: BOOT_OFFSET, len: 512, context: "Read BPB error: ".to_string() },
            ),
            Progress::Data { cluster, .. } => {
                let g = self.geometry;
                let n = (*cluster - 2) as u64;
                assert(n * g.cluster_size <= 0x1000_0000 * 0x100_0000) by (nonlinear_arith)
                    requires
                        0 <= n <= 0x1000_0000,
                        0 <= g.cluster_size <= 0x100_0000,
                ;
                Some(
                    Request {
                        offset: g.data_start + n * g.cluster_size,
                        len: g.cluster_size as usize,
                        context: "Data read: ".to_string(),
                    },
                )
            },
            Progress::Table { cluster, .. } => Some(
                Request {
                    offset: self.geometry.fat_start + *cluster as u64 * 4,
                    len: 4,
                    context: "FAT read: ".to_string(),
                },
            ),
            Progress::Done(_) => None,
        }
    }

    fn enter(self, stage: Stage, cluster: u32, data: Vec<u8>) -> (r: Walk)
        requires
            self.geometry.wf(),
            views(self.parts@) == pieces(self.path@, '/'),
            0 < self.parts@.len() <= usize::MAX,
        ensures
            r.wf(),
            r.path == self.path,
            r.geometry == self.geometry,
            r@ == entered(self.path@, stage, cluster, data@),
        decreases rank(self.path@, stage),
    {
        let Walk { path, parts, geometry, progress: _ } = self;
        let ghost pv = pieces(path@, '/');
        if is_live(cluster) {
            return Walk {
                path,
                parts,
                geometry,
                progress: Progress::Data { stage, cluster, data },
            };
        }
        match stage {
            Stage::Root => match find_entry(data.as_slice(), "overlays") {
                Some(e) => {
                    if e.is_dir {
                        let w = Walk { path, parts, geometry, progress: Progress::Boot };
                        w.enter(Stage::Dir(0), e.cluster, Vec::new())
                    } else {
                        let msg = "overlays is not a directory".to_string();
                        Walk { path, parts, geometry, progress: Progress::Done(Err(msg)) }
                    }
                },
                None => {
                    let msg = "overlays/ directory not found in boot partition".to_string();
                    Walk { path, parts, geometry, progress: Progress::Done(Err(msg)) }
                },
            },
            Stage::Dir(n) => {
                if n < parts.len() - 1 {
                    assert(pv[n as int] == parts@[n as int]@);
                    let part = parts[n].as_str();
                    match find_entry(data.as_slice(), part) {
                        Some(e) => {
                            if e.is_dir {
                                let w = Walk { path, parts, geometry, progress: Progress::Boot };
                                w.enter(Stage::Dir(n + 1), e.cluster, Vec::new())
                            } else {
                                let msg = join(part, " is not a directory");
                                Walk { path, parts, geometry, progress: Progress::Done(Err(msg)) }
                            }
                        },
                        None => {
                            let msg = join(join("overlays/", part).as_str(), " not found");
                            Walk { path, parts, geometry, progress: Progress::Done(Err(msg)) }
                        },
                    }
                } else {
                    assert(pv.last() == parts@[parts@.len() - 1]@);
                    match find_entry(data.as_slice(), parts[parts.len() - 1].as_str()) {
                        Some(e) => {
                            let w = Walk { path, parts, geometry, progress: Progress::Boot };
                            w.enter(Stage::File(e.size), e.cluster, Vec::new())
                        },
                        None => {
                            let msg = join(join("overlays/", path.as_str()).as_str(), " not found");
                            Walk { path, parts, geometry, progress: Progress::Done(Err(msg)) }
                        },
                    }
                }
            },
            Stage::File(size) => {
                let file = FoundFile { data, size };
                Walk { path, parts, geometry, progress: Progress::Done(Ok(file)) }
            },
        }
    }

    /// Goes on with the bytes that were asked for.
    pub fn feed(self, bytes: &[u8]) -> (r: Walk)
        requires
            self.wf(),
            wanted(self.layout(), self@) matches Some(q) && q.1 == bytes@.len(),
        ensures
            r.wf(),
            r.path() == self.path(),
            (r.layout(), r@) == fed(self.layout(), self.path(), self@, bytes@),
    {
        let Walk { path, parts, geometry, progress } = self;
        match progress {
            Progress::Boot => match parse_boot_sector(bytes) {
                Ok(g) => {
                    let w = Walk { path, parts, geometry: g, progress: Progress::Boot };
                    w.enter(Stage::Root, g.root_cluster, Vec::new())
                },
                Err(e) => Walk { path, parts, geometry, progress: Progress::Done(Err(e)) },
            },
            Progress::Data { stage, cluster, data } => {
                let mut all = data;
                push_all(&mut all, bytes);
                let progress = Progress::Table { stage, cluster, data: all };
                Walk { path, parts, geometry, progress }
            },
            Progress::Table { stage, cluster: _, data } => {
                let next = read_le32(bytes, 0) % 0x1000_0000;
                let w = Walk { path, parts, geometry, progress: Progress::Boot };
                w.enter(stage, next, data)
            },
            Progress::Done(r) => Walk { path, parts, geometry, progress: Progress::Done(r) },
        }
    }

    /// What the reader came to.
    pub fn outcome(self) -> (r: Option<Result<FoundFile, String>>)
        ensures
            match r {
                Some(Ok(f)) => self@ == ProgressView::Done(
                    Ok((FileView { data: f.data@, size: f.size })),
                ),
                Some(Err(e)) => self@ == ProgressView::Done(Err(e@)),
                None => !(self@ is Done),
            },
    {
        match self.progress {
            Progress::Done(r) => Some(r),
            _ => None,
        }
    }
}

// ---------------------------------------------------------------------------
// The reader finds what is in the image
// ---------------------------------------------------------------------------

/// What is found from a state on, if the present chain ends within `k` more
/// clusters.
#[verifier::opaque]
pub open spec fn comes_to(img: Seq<u8>, g: Geometry, path: Seq<char>, p: ProgressView, k: nat) -> Option<
    Result<FileView, Seq<char>>,
> {
    match p {
        ProgressView::Boot => dtbo_in(img, path),
        ProgressView::Data { stage, cluster, data } => match chain(img, g, cluster, k) {
            Some(Ok(d)) => found_after(img, g, path, stage, data + d),
            Some(Err(e)) => Some(Err(e)),
            None => None,
        },
        ProgressView::Table { stage, cluster, data } => match chain_on(img, g, cluster, k) {
            Some(Ok(d)) => found_after(img, g, path, stage, data + d),
            Some(Err(e)) => Some(Err(e)),
            None => None,
        },
        ProgressView::Done(r) => Some(r),
    }
}

/// How many chains are left.
pub open spec fn chains_left(path: Seq<char>, p: ProgressView) -> nat {
    match p {
        ProgressView::Boot => rank(path, Stage::Root) + 2,
        ProgressView::Data { stage, .. } => rank(path, stage) + 1,
        ProgressView::Table { stage, .. } => rank(path, stage) + 1,
        ProgressView::Done(_) => 0,
    }
}

proof fn lemma_entered(
    img: Seq<u8>,
    g: Geometry,
    path: Seq<char>,
    stage: Stage,
    c: u32,
    data: Seq<u8>,
    k: nat,
)
    requires
        pieces(path, '/').len() <= usize::MAX,
    ensures
        !(entered(path, stage, c, data) is Boot),
        comes_to(
            img,
            g,
            path,
            entered(path, stage, c, data),
            if live(c) {
                k
            } else {
                chain_limit()
            },
        ) == (match chain(img, g, c, k) {
            Some(Ok(d)) => found_after(img, g, path, stage, data + d),
            Some(Err(e)) => Some(Err(e)),
            None => None,
        }),
        !live(c) ==> chains_left(path, entered(path, stage, c, data)) < rank(path, stage) + 1,
    decreases rank(path, stage),
{
    reveal(comes_to);
    if !live(c) {
        assert(data + Seq::<u8>::empty() =~= data);
        match after(path, stage, data) {
            After::Go(next, c2) => {
                lemma_entered(img, g, path, next, c2, Seq::empty(), chain_limit());
                assert forall|d: Seq<u8>| #[trigger] (Seq::<u8>::empty() + d) == d by {
                    assert(Seq::<u8>::empty() + d =~= d);
                }
            },
            After::Stop(_) => {},
        }
    }
}

/// A read that succeeds leaves what is found the same: whoever feeds the
/// reader the bytes of an image comes to what the image holds.
pub proof fn lemma_fed(img: Seq<u8>, g: Geometry, path: Seq<char>, p: ProgressView, k: nat)
    requires
        pieces(path, '/').len() <= usize::MAX,
        img.len() > BOOT_OFFSET,
        wanted(g, p) matches Some(q) && 0 <= q.0 && 0 <= q.1 && q.0 + q.1 <= img.len(),
        p is Data ==> k > 0,
        p matches ProgressView::Data { cluster, .. } ==> live(cluster),
    ensures
        ({
            let q = wanted(g, p)->0;
            let b = img.subrange(q.0, q.0 + q.1);
            let (g2, p2) = fed(g, path, p, b);
            let k2 = match p {
                ProgressView::Data { .. } => (k - 1) as nat,
                ProgressView::Table { .. } => if live(next_cluster(b)) {
                    k
                } else {
                    chain_limit()
                },
                _ => chain_limit(),
            };
            &&& comes_to(img, g2, path, p2, k2) == comes_to(img, g, path, p, k)
            &&& p is Data ==> chains_left(path, p2) == chains_left(path, p)
            &&& p is Boot ==> chains_left(path, p2) < chains_left(path, p)
            &&& p is Table ==> if live(next_cluster(b)) {
                p2 is Data && chains_left(path, p2) == chains_left(path, p)
            } else {
                chains_left(path, p2) < chains_left(path, p)
            }
        }),
{
    reveal(comes_to);
    let q = wanted(g, p)->0;
    let b = img.subrange(q.0, q.0 + q.1);
    match p {
        ProgressView::Boot => {
            match geometry(b) {
                Ok(g2) => {
                    lemma_entered(
                        img,
                        g2,
                        path,
                        Stage::Root,
                        g2.root_cluster,
                        Seq::empty(),
                        chain_limit(),
                    );
                    assert forall|d: Seq<u8>| #[trigger] (Seq::<u8>::empty() + d) == d by {
                        assert(Seq::<u8>::empty() + d =~= d);
                    }
                },
                Err(_) => {},
            }
        },
        ProgressView::Data { stage, cluster, data } => {
            match chain_on(img, g, cluster, (k - 1) as nat) {
                Some(Ok(d)) => {
                    assert((data + b) + d =~= data + (b + d));
                },
                _ => {},
            }
        },
        ProgressView::Table { stage, cluster, data } => {
            lemma_entered(img, g, path, stage, next_cluster(b), data, k);
        },
        ProgressView::Done(_) => {},
    }
}

/// A read behind the end of the image ends the search with its message.
pub proof fn lemma_short(img: Seq<u8>, g: Geometry, path: Seq<char>, p: ProgressView, k: nat)
    requires
        img.len() > BOOT_OFFSET,
        wanted(g, p) matches Some(q) && q.0 + q.1 > img.len(),
        p is Data ==> k > 0,
        p matches ProgressView::Data { cluster, .. } ==> live(cluster),
    ensures
        wanted(g, p) matches Some(q) && comes_to(img, g, path, p, k) == Some(
            Err::<FileView, Seq<char>>(read_fault(q.2)),
        ),
{
    reveal(comes_to);
}

proof fn lemma_settled(img: Seq<u8>, g: Geometry, path: Seq<char>, p: ProgressView)
    ensures
        p matches ProgressView::Done(r) ==> comes_to(img, g, path, p, chain_limit()) == Some(r)
            && comes_to(img, g, path, p, 0) == Some(r),
        p matches ProgressView::Data { cluster, .. } && live(cluster) ==> comes_to(
            img,
            g,
            path,
            p,
            0,
        ) is None,
        p is Boot ==> comes_to(img, g, path, p, chain_limit()) == dtbo_in(img, path),
{
    reveal(comes_to);
}

/// What an exec result says as a value.
spec fn told(r: Option<Result<FoundFile, String>>) -> Option<Result<FileView, Seq<char>>> {
    match r {
        Some(Ok(f)) => Some(Ok(FileView { data: f.data@, size: f.size })),
        Some(Err(e)) => Some(Err(e@)),
        None => None,
    }
}

/// Reads the file `panel_dtbo` out of an image in memory. `None`: a chain of
/// the image never ends.
pub fn find_in_image(image: &[u8], panel_dtbo: &str) -> (r: Option<Result<FoundFile, String>>)
    ensures
        match r {
            Some(Ok(f)) => dtbo_in(image@, panel_dtbo@) == Some(
                Ok::<FileView, Seq<char>>((FileView { data: f.data@, size: f.size })),
            ),
            Some(Err(e)) => dtbo_in(image@, panel_dtbo@) == Some(Err::<FileView, Seq<char>>(e@)),
            None => dtbo_in(image@, panel_dtbo@) is None,
        },
{
    let walk = Walk::new(panel_dtbo, image.len() as u64);
    proof {
        lemma_settled(image@, walk.layout(), panel_dtbo@, walk@);
    }
    walk.run(image, CHAIN_END)
}

impl Walk {
    /// Reads on in an image in memory, `limit` clusters of this chain at most.
    #[verifier::loop_isolation(false)]
    fn run(self, image: &[u8], limit: u32) -> (r: Option<Result<FoundFile, String>>)
        requires
            self.wf(),
            self@ is Done || image@.len() > BOOT_OFFSET,
            self@ is Boot || self@ is Done ==> limit == CHAIN_END,
            limit <= CHAIN_END,
        ensures
            told(r) == comes_to(image@, self.layout(), self.path(), self@, limit as nat),
    {
        let ghost path = self.path();
        let ghost target = comes_to(image@, self.layout(), path, self@, limit as nat);
        let mut walk = self;
        let mut left: u32 = limit;
        loop
            invariant
                walk.wf(),
                walk.path() == path,
                walk@ is Done || image@.len() > BOOT_OFFSET,
                walk@ is Boot || walk@ is Done ==> left == CHAIN_END,
                left <= CHAIN_END,
                comes_to(image@, walk.layout(), path, walk@, left as nat) == target,
            decreases chains_left(path, walk@), left, (if walk@ is Table {
                1int
            } else {
                0int
            }),
        {
            proof {
                lemma_settled(image@, walk.layout(), path, walk@);
            }
            let q = match walk.request() {
                Some(q) => q,
                None => {
                    return walk.outcome();
                },
            };
            let in_data = matches!(&walk.progress, Progress::Data { .. });
            let in_table = matches!(&walk.progress, Progress::Table { .. });
            if in_data && left == 0 {
                return None;
            }
            let end = q.offset as u128 + q.len as u128;
            if end > image.len() as u128 {
                proof {
                    lemma_short(image@, walk.layout(), path, walk@, left as nat);
                }
                let msg = join(q.context.as_str(), "failed to fill whole buffer");
                return Some(Err(msg));
            }
            let bytes = slice_subrange(image, q.offset as usize, end as usize);
            proof {
                assert(views(walk.parts@).len() == walk.parts@.len());
                lemma_fed(image@, walk.layout(), path, walk@, left as nat);
            }
            let on_chain = in_table && is_live(read_le32(bytes, 0) % 0x1000_0000);
            walk = walk.feed(bytes);
            if in_data {
                left = left - 1;
            } else if !on_chain {
                left = CHAIN_END;
            }
        }
    }
}

/// The bytes of a file: what its entry counts of its clusters.
pub fn file_bytes(file: FoundFile) -> (r: Vec<u8>)
    requires
        file.size <= file.data@.len(),
    ensures
        r@ == file.data@.take(file.size as int),
{
    let r = copy_range(file.data.as_slice(), 0, file.size as usize);
    assert(r@ =~= file.data@.take(file.size as int));
    r
}

/// The image can be read: no chain on the way is endless, and the file is no
/// longer than its clusters.
pub open spec fn sound(img: Seq<u8>, path: Seq<char>) -> bool {
    dtbo_in(img, path) matches Some(r) && (r matches Ok(f) ==> f.size <= f.data.len())
}

/// The bytes of the file, or the message that says why there is none.
pub open spec fn dtbo_bytes(img: Seq<u8>, path: Seq<char>) -> Result<Seq<u8>, Seq<char>> {
    match dtbo_in(img, path)->0 {
        Ok(f) => Ok(f.data.take(f.size as int)),
        Err(e) => Err(e),
    }
}

/// Reads a panel overlay out of an image in memory.
pub fn read_dtbo_from_image(image: &[u8], panel_dtbo: &str) -> (r: Result<Vec<u8>, String>)
    requires
        sound(image@, panel_dtbo@),
    ensures
        match r {
            Ok(v) => dtbo_bytes(image@, panel_dtbo@) == Ok::<Seq<u8>, Seq<char>>(v@),
            Err(e) => dtbo_bytes(image@, panel_dtbo@) == Err::<Seq<u8>, Seq<char>>(e@),
        },
{
    match find_in_image(image, panel_dtbo) {
        Some(Ok(f)) => Ok(file_bytes(f)),
        Some(Err(e)) => Err(e),
        None => Err(String::new()),
    }
}

/// [`read_dtbo_from_image`] for any image: `None` where it cannot be read.
pub fn try_read_dtbo_from_image(image: &[u8], panel_dtbo: &str) -> (r: Option<
    Result<Vec<u8>, String>,
>)
    ensures
        r is Some == sound(image@, panel_dtbo@),
        match r {
            Some(Ok(v)) => dtbo_bytes(image@, panel_dtbo@) == Ok::<Seq<u8>, Seq<char>>(v@),
            Some(Err(e)) => dtbo_bytes(image@, panel_dtbo@) == Err::<Seq<u8>, Seq<char>>(e@),
            None => true,
        },
{
    match find_in_image(image, panel_dtbo) {
        Some(Ok(f)) => if f.size as u64 <= f.data.len() as u64 {
            Some(read_dtbo_from_image(image, panel_dtbo))
        } else {
            None
        },
        Some(Err(_)) => Some(read_dtbo_from_image(image, panel_dtbo)),
        None => None,
    }
}

} // verus!
