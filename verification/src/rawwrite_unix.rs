//! Writing an image to a raw device on Unix, and preparing the boot partition
//! inside an image.

use crate::bytes::{copy_range, le_word, read_le32, same_bytes};
use crate::dtbo_builder::{push_zeros, zeros};
use crate::flashwrite::{overwritten, round_up, rounded};
use crate::text::{decimal, decimal_of, hex_byte, join, push_hex_byte, same};
use vstd::prelude::*;
use vstd::utf8::*;

verus! {

pub const SECTOR: usize = 512;

pub const CHUNK: usize = 0x40_0000;

pub const MB: u64 = 0x10_0000;

/// Why no open device came from the helper.
#[derive(Debug)]
pub enum FdHelperError {
    /// The helper could not be spawned at all.
    Spawn(String),
    /// The helper ran but exited non-zero without delivering a descriptor; for
    /// the authorization helper this is the user dismissing the prompt.
    Refused(i32, String),
    /// The helper exited cleanly yet no descriptor arrived.
    NoFd(String),
}

/// What a helper means that exited without sending a descriptor. A helper
/// that did not exit by itself has no code.
pub fn classify_helper_exit(code: Option<i32>, stderr: String) -> (r: FdHelperError)
    ensures
        r == (match code {
            Some(0) => FdHelperError::NoFd(stderr),
            Some(c) => FdHelperError::Refused(c, stderr),
            None => FdHelperError::Refused(-1i32, stderr),
        }),
{
    let code: i32 = match code {
        Some(c) => c,
        None => -1,
    };
    if code != 0 {
        FdHelperError::Refused(code, stderr)
    } else {
        FdHelperError::NoFd(stderr)
    }
}

/// Result of a completed raw write: byte count plus a non-fatal warning when
/// the device rejected the final flush.
pub struct WriteOutcome {
    pub bytes: u64,
    pub sync_warning: Option<String>,
}

/// Where the last megabyte of a device starts, which is wiped along with the
/// first, if the device has more than two.
pub open spec fn last_wipe(device_size: Option<u64>) -> Option<u64> {
    match device_size {
        Some(size) => if size > 2 * MB {
            Some((size - MB) as u64)
        } else {
            None
        },
        None => None,
    }
}

/// Where the last megabyte of a device starts, if it is wiped.
pub fn last_wipe_offset(device_size: Option<u64>) -> (r: Option<u64>)
    ensures
        r == last_wipe(device_size),
        r matches Some(at) ==> at >= MB && at + MB == device_size->0,
{
    match device_size {
        Some(size) => if size > 2 * MB {
            Some(size - MB)
        } else {
            None
        },
        None => None,
    }
}

/// The image bytes that a raw device was sent, and what followed them.
#[verifier::ext_equal]
pub ghost struct RawView {
    /// The image bytes.
    pub data: Seq<u8>,
    /// All bytes.
    pub sent: Seq<u8>,
    /// How often the count of image bytes was reported.
    pub reports: nat,
    /// More chunks may come.
    pub open: bool,
}

/// How many zeros fill the last sector of `n` bytes.
pub open spec fn sector_pad(n: int) -> nat {
    (rounded(n, SECTOR as int) - n) as nat
}

/// Streams an image to a raw device.
pub struct RawWriter {
    done: u64,
    open: bool,
    data: Ghost<Seq<u8>>,
    sent: Ghost<Seq<u8>>,
    reports: Ghost<nat>,
}

impl RawWriter {
    pub closed spec fn view(&self) -> RawView {
        RawView {
            data: self.data@,
            sent: self.sent@,
            reports: self.reports@,
            open: self.open,
        }
    }

    /// The count is that of the image bytes.
    pub closed spec fn counted(&self) -> bool {
        self.done == self.data@.len()
    }

    /// The device was sent the image bytes, and behind them zeros up to the
    /// sector; there are none while more chunks may come. The count was
    /// reported once for each chunk.
    pub open spec fn wf(&self) -> bool {
        &&& self.counted()
        &&& self@.sent == self@.data + zeros(sector_pad(self@.data.len() as int))
        &&& self@.open ==> self@.data.len() % (CHUNK as nat) == 0
        &&& self@.reports == (self@.data.len() + CHUNK - 1) / CHUNK as int
    }

    pub fn new() -> (r: Self)
        ensures
            r.wf(),
            r@ == (RawView { data: Seq::empty(), sent: Seq::empty(), reports: 0, open: true }),
    {
        let r = RawWriter {
            done: 0,
            open: true,
            data: Ghost(Seq::empty()),
            sent: Ghost(Seq::empty()),
            reports: Ghost(0),
        };
        assert(r@.sent =~= r@.data + zeros(sector_pad(0)));
        r
    }

    /// Takes a chunk of the image and fills it with zeros up to a whole
    /// sector, as it is to be written; how many image bytes there are now.
    /// `None`: the chunk is empty, and nothing is to be written. A chunk that
    /// is not full ends the image, so only the last one is filled up.
    pub fn take(&mut self, chunk: &mut Vec<u8>) -> (r: Option<u64>)
        requires
            old(self).wf(),
            old(self)@.open,
            old(chunk)@.len() <= CHUNK,
            old(self)@.data.len() + old(chunk)@.len() <= u64::MAX,
        ensures
            final(self).wf(),
            final(chunk)@ == old(chunk)@ + zeros(sector_pad(old(chunk)@.len() as int)),
            final(chunk)@.len() <= CHUNK,
            r == (if old(chunk)@.len() == 0 {
                None
            } else {
                Some(final(self)@.data.len() as u64)
            }),
            final(self)@ == (RawView {
                data: old(self)@.data + old(chunk)@,
                sent: old(self)@.sent + final(chunk)@,
                reports: if old(chunk)@.len() == 0 {
                    old(self)@.reports
                } else {
                    old(self)@.reports + 1
                },
                open: old(chunk)@.len() == CHUNK,
            }),
    {
        let filled = chunk.len();
        let size = round_up(filled, SECTOR);
        let ghost before = self@.data;
        let ghost bytes = chunk@;
        assert(filled <= size <= CHUNK) by {
            assert(filled <= (filled + 512 - 1) / 512 * 512 <= 0x40_0000);
        }
        push_zeros(chunk, size - filled);
        self.done = self.done + filled as u64;
        self.open = filled == CHUNK;
        proof {
            self.data@ = self.data@ + bytes;
            self.sent@ = self.sent@ + chunk@;
            if filled > 0 {
                self.reports@ = self.reports@ + 1;
            }
            lemma_sectors(before.len() as int, filled as int);
            assert(before + zeros(sector_pad(before.len() as int)) =~= before);
            assert(self.sent@ =~= self.data@ + zeros(sector_pad(self.data@.len() as int)));
        }
        if filled == 0 {
            None
        } else {
            Some(self.done)
        }
    }

    /// What was written.
    pub fn outcome(&self, sync_warning: Option<String>) -> (r: WriteOutcome)
        requires
            self.wf(),
        ensures
            r.bytes == self@.data.len(),
            r.sync_warning == sync_warning,
    {
        WriteOutcome { bytes: self.done, sync_warning }
    }
}

/// After whole chunks, the sectors of the next chunk are those of all bytes.
proof fn lemma_sectors(before: int, n: int)
    requires
        before >= 0,
        before % CHUNK as int == 0,
        0 <= n <= CHUNK,
    ensures
        sector_pad(before) == 0,
        sector_pad(before + n) == sector_pad(n),
        n == CHUNK ==> (before + n) % CHUNK as int == 0 && sector_pad(n) == 0,
        (before + n + CHUNK - 1) / CHUNK as int == (before + CHUNK - 1) / CHUNK as int + (if n
            == 0 {
            0int
        } else {
            1
        }),
{
    let k = before / 0x40_0000;
    assert(before == 0x40_0000 * k);
    assert((before + 511) / 512 * 512 == before);
    assert((before + n + 511) / 512 * 512 == before + (n + 511) / 512 * 512);
}

/// A device after its first and last megabyte were wiped and then the bytes
/// `sent` were written.
pub open spec fn device_after(device: Seq<u8>, size: Option<u64>, sent: Seq<u8>) -> Seq<u8> {
    let first = overwritten(device, 0, zeros(MB as nat));
    let wiped = match last_wipe(size) {
        Some(at) => overwritten(first, at as int, zeros(MB as nat)),
        None => first,
    };
    overwritten(wiped, 0, sent)
}

/// A device that was written holds the image; behind it, up to the sector and
/// in the first and last megabyte, zeros; and else what it held before.
pub proof fn lemma_device_after(device: Seq<u8>, image: Seq<u8>)
    requires
        device.len() > 2 * MB,
        device.len() <= u64::MAX,
        rounded(image.len() as int, SECTOR as int) <= device.len(),
    ensures
        ({
            let n = image.len() as int;
            let end = rounded(n, SECTOR as int);
            let size = device.len() as int;
            let sent = image + zeros(sector_pad(n));
            let d = device_after(device, Some(size as u64), sent);
            &&& d.len() == size
            &&& d.take(n) == image
            &&& forall|i: int| n <= i < end ==> #[trigger] d[i] == 0
            &&& forall|i: int| n <= i < MB ==> #[trigger] d[i] == 0
            &&& forall|i: int| end <= i < size && size - MB <= i ==> #[trigger] d[i] == 0
            &&& forall|i: int|
                end <= i < size - MB && MB <= i ==> #[trigger] d[i] == device[i]
        }),
{
    let n = image.len() as int;
    let size = device.len() as int;
    let sent = image + zeros(sector_pad(n));
    let d = device_after(device, Some(size as u64), sent);
    assert(n <= (n + 511) / 512 * 512);
    assert(d.take(n) =~= image);
}

/// Compares a device with an image, chunk by chunk.
pub struct RawVerifier {
    image_size: u64,
    done: u64,
}

impl RawVerifier {
    pub closed spec fn image_size(&self) -> int {
        self.image_size as int
    }

    /// How many bytes were found equal.
    pub closed spec fn done(&self) -> int {
        self.done as int
    }

    pub closed spec fn wf(&self) -> bool {
        self.done <= self.image_size
    }

    pub fn new(image_size: u64) -> (r: Self)
        ensures
            r.wf(),
            r.image_size() == image_size,
            r.done() == 0,
    {
        RawVerifier { image_size, done: 0 }
    }

    /// How many bytes to read next from the image, and in whole sectors from
    /// the device; `None` when all were compared.
    pub fn next(&self) -> (r: Option<(usize, usize)>)
        requires
            self.wf(),
        ensures
            match r {
                Some((want, sectors)) => {
                    let left = self.image_size() - self.done();
                    &&& left > 0
                    &&& want == (if left < CHUNK {
                        left
                    } else {
                        CHUNK as int
                    })
                    &&& sectors == rounded(want as int, SECTOR as int)
                },
                None => self.done() == self.image_size(),
            },
    {
        if self.done >= self.image_size {
            return None;
        }
        let left = self.image_size - self.done;
        let want: usize = if left < CHUNK as u64 {
            left as usize
        } else {
            CHUNK
        };
        Some((want, round_up(want, SECTOR)))
    }

    /// Compares bytes of the image with those of the device; the percentage
    /// done, or a message.
    pub fn compare(&mut self, image: &[u8], device: &[u8]) -> (r: Result<u64, String>)
        requires
            old(self).wf(),
            0 < image@.len(),
            old(self).done() + image@.len() <= old(self).image_size(),
            old(self).image_size() * 100 <= u64::MAX,
        ensures
            final(self).wf(),
            final(self).image_size() == old(self).image_size(),
            match r {
                Ok(p) => {
                    &&& image@ == device@
                    &&& final(self).done() == old(self).done() + image@.len()
                    &&& p == final(self).done() * 100 / old(self).image_size()
                },
                Err(e) => {
                    &&& image@ != device@
                    &&& final(self).done() == old(self).done()
                    &&& e@ == "verify_failed mismatch within "@ + decimal(image@.len())
                        + " bytes at offset "@ + decimal(old(self).done() as nat)
                },
            },
    {
        if !same_bytes(image, device) {
            let a = join("verify_failed mismatch within ", decimal_of(image.len() as u64).as_str());
            let b = join(a.as_str(), " bytes at offset ");
            return Err(join(b.as_str(), decimal_of(self.done).as_str()));
        }
        self.done = self.done + image.len() as u64;
        Ok(self.done * 100 / self.image_size)
    }
}

// ---------------------------------------------------------------------------
// The boot partition of an image
// ---------------------------------------------------------------------------

/// Where the boot partition is, by the first entry of the partition table:
/// the offsets of its first byte and of the byte behind its last.
pub open spec fn boot_range(mbr: Seq<u8>) -> Result<(u64, u64), Seq<char>> {
    let kind = mbr[450];
    let start = le_word(mbr, 454) * 512;
    let end = start + le_word(mbr, 458) * 512;
    if mbr[510] != 0x55 || mbr[511] != 0xAA {
        Err("err:image_patch image has no MBR signature"@)
    } else if kind != 0x0c && kind != 0x0b {
        Err(
            "err:image_patch first partition is not FAT32 (type 0x"@ + hex_byte(kind) + ")"@,
        )
    } else if le_word(mbr, 454) == 0 || le_word(mbr, 458) == 0 {
        Err("err:image_patch empty boot partition entry"@)
    } else {
        Ok((start as u64, end as u64))
    }
}

/// Finds the boot partition in a partition table.
pub fn boot_partition_range(mbr: &[u8]) -> (r: Result<(u64, u64), String>)
    requires
        mbr@.len() == 512,
    ensures
        match r {
            Ok(x) => boot_range(mbr@) == Ok::<(u64, u64), Seq<char>>(x) && x.0 < x.1,
            Err(e) => boot_range(mbr@) == Err::<(u64, u64), Seq<char>>(e@),
        },
{
    if mbr[510] != 0x55 || mbr[511] != 0xAA {
        return Err("err:image_patch image has no MBR signature".to_string());
    }
    let ptype = mbr[450];
    if ptype != 0x0c && ptype != 0x0b {
        let mut msg = "err:image_patch first partition is not FAT32 (type 0x".to_string();
        push_hex_byte(&mut msg, ptype);
        return Err(join(msg.as_str(), ")"));
    }
    let start_lba = read_le32(mbr, 454) as u64;
    let num_sectors = read_le32(mbr, 458) as u64;
    if start_lba == 0 || num_sectors == 0 {
        return Err("err:image_patch empty boot partition entry".to_string());
    }
    let part_start = start_lba * 512;
    Ok((part_start, part_start + num_sectors * 512))
}

/// How far the patch of the boot partition has come.
#[derive(Debug, Clone, Copy, PartialEq, Eq, Structural)]
pub enum PatchStep {
    CreateOverlays,
    WriteOverlay,
    WriteVariant,
    OpenExtlinux,
    ReadAlternate,
    ReadCurrent,
    WriteBackup,
    WriteCurrent,
    Unmount,
    Finished,
}

/// What is done to the boot partition next.
pub enum PatchAction {
    /// Make a directory, unless it is there.
    CreateDir { path: String, label: String },
    /// Look into a directory that has to be there.
    OpenDir { path: String, label: String },
    /// Read a whole file. One that may be missing is then taken for empty.
    Read { path: String, label: String, optional: bool },
    /// Replace the contents of a file, which is made if need be.
    Write { path: String, label: String, create: bool, data: Vec<u8> },
    /// Finish the file system.
    Unmount { label: String },
}

pub ghost enum ActionView {
    CreateDir { path: Seq<char>, label: Seq<char> },
    OpenDir { path: Seq<char>, label: Seq<char> },
    Read { path: Seq<char>, label: Seq<char>, optional: bool },
    Write { path: Seq<char>, label: Seq<char>, create: bool, data: Seq<u8> },
    Unmount { label: Seq<char> },
}

impl PatchAction {
    pub open spec fn view(&self) -> ActionView {
        match self {
            PatchAction::CreateDir { path, label } => ActionView::CreateDir {
                path: path@,
                label: label@,
            },
            PatchAction::OpenDir { path, label } => ActionView::OpenDir {
                path: path@,
                label: label@,
            },
            PatchAction::Read { path, label, optional } => ActionView::Read {
                path: path@,
                label: label@,
                optional: *optional,
            },
            PatchAction::Write { path, label, create, data } => ActionView::Write {
                path: path@,
                label: label@,
                create: *create,
                data: data@,
            },
            PatchAction::Unmount { label } => ActionView::Unmount { label: label@ },
        }
    }
}

/// The patch of a boot partition: the panel overlay, the variant marker, and
/// for the soysauce variant the alternate boot configuration.
pub struct BootPatch {
    dtbo: Vec<u8>,
    variant: String,
    alternate: Vec<u8>,
    current: Vec<u8>,
    step: PatchStep,
}

#[verifier::ext_equal]
pub ghost struct PatchView {
    pub dtbo: Seq<u8>,
    pub variant: Seq<char>,
    pub alternate: Seq<u8>,
    pub current: Seq<u8>,
    pub step: PatchStep,
}

pub open spec fn patch_start(dtbo: Seq<u8>, variant: Seq<char>) -> PatchView {
    PatchView {
        dtbo,
        variant,
        alternate: Seq::empty(),
        current: Seq::empty(),
        step: PatchStep::CreateOverlays,
    }
}

/// What is to be done in a state.
pub open spec fn action_of(v: PatchView) -> Option<ActionView> {
    match v.step {
        PatchStep::CreateOverlays => Some(
            ActionView::CreateDir { path: "overlays"@, label: "overlays dir"@ },
        ),
        PatchStep::WriteOverlay => Some(
            ActionView::Write {
                path: "overlays/mipi-panel.dtbo"@,
                label: "overlay"@,
                create: true,
                data: v.dtbo,
            },
        ),
        PatchStep::WriteVariant => Some(
            ActionView::Write {
                path: "variant"@,
                label: "variant"@,
                create: true,
                data: encode_utf8(v.variant),
            },
        ),
        PatchStep::OpenExtlinux => Some(
            ActionView::OpenDir { path: "extlinux"@, label: "extlinux dir"@ },
        ),
        PatchStep::ReadAlternate => Some(
            ActionView::Read {
                path: "extlinux/extlinux.conf.soysauce"@,
                label: "soysauce conf"@,
                optional: true,
            },
        ),
        PatchStep::ReadCurrent => Some(
            ActionView::Read {
                path: "extlinux/extlinux.conf"@,
                label: "extlinux.conf"@,
                optional: false,
            },
        ),
        PatchStep::WriteBackup => Some(
            ActionView::Write {
                path: "extlinux/extlinux.conf.bak"@,
                label: "conf backup"@,
                create: true,
                data: v.current,
            },
        ),
        PatchStep::WriteCurrent => Some(
            ActionView::Write {
                path: "extlinux/extlinux.conf"@,
                label: "extlinux.conf"@,
                create: false,
                data: v.alternate,
            },
        ),
        PatchStep::Unmount => Some(ActionView::Unmount { label: "FAT"@ }),
        PatchStep::Finished => None,
    }
}

/// The state after the action has succeeded; `bytes` is what was read.
pub open spec fn stepped(v: PatchView, bytes: Seq<u8>) -> PatchView {
    match v.step {
        PatchStep::CreateOverlays => PatchView { step: PatchStep::WriteOverlay, ..v },
        PatchStep::WriteOverlay => PatchView { step: PatchStep::WriteVariant, ..v },
        PatchStep::WriteVariant => PatchView {
            step: if v.variant == "soysauce"@ {
                PatchStep::OpenExtlinux
            } else {
                PatchStep::Unmount
            },
            ..v
        },
        PatchStep::OpenExtlinux => PatchView { step: PatchStep::ReadAlternate, ..v },
        PatchStep::ReadAlternate => PatchView {
            alternate: bytes,
            step: if bytes.len() > 0 {
                PatchStep::ReadCurrent
            } else {
                PatchStep::Unmount
            },
            ..v
        },
        PatchStep::ReadCurrent => PatchView { current: bytes, step: PatchStep::WriteBackup, ..v },
        PatchStep::WriteBackup => PatchView { step: PatchStep::WriteCurrent, ..v },
        PatchStep::WriteCurrent => PatchView { step: PatchStep::Unmount, ..v },
        PatchStep::Unmount => PatchView { step: PatchStep::Finished, ..v },
        PatchStep::Finished => v,
    }
}

fn copy_bytes(v: &Vec<u8>) -> (r: Vec<u8>)
    ensures
        r@ == v@,
{
    let r = copy_range(v.as_slice(), 0, v.len());
    assert(r@ =~= v@);
    r
}

impl BootPatch {
    pub closed spec fn view(&self) -> PatchView {
        PatchView {
            dtbo: self.dtbo@,
            variant: self.variant@,
            alternate: self.alternate@,
            current: self.current@,
            step: self.step,
        }
    }

    pub fn new(dtbo: Vec<u8>, variant: &str) -> (r: Self)
        ensures
            r@ == patch_start(dtbo@, variant@),
    {
        let r = BootPatch {
            dtbo,
            variant: variant.to_string(),
            alternate: Vec::new(),
            current: Vec::new(),
            step: PatchStep::CreateOverlays,
        };
        assert(r@ =~= patch_start(dtbo@, variant@));
        r
    }

    /// What is to be done next; `None` when the patch is finished.
    pub fn action(&self) -> (r: Option<PatchAction>)
        ensures
            match r {
                Some(a) => action_of(self@) == Some(a@),
                None => action_of(self@) is None,
            },
    {
        match self.step {
            PatchStep::CreateOverlays => Some(
                PatchAction::CreateDir {
                    path: "overlays".to_string(),
                    label: "overlays dir".to_string(),
                },
            ),
            PatchStep::WriteOverlay => Some(
                PatchAction::Write {
                    path: "overlays/mipi-panel.dtbo".to_string(),
                    label: "overlay".to_string(),
                    create: true,
                    data: copy_bytes(&self.dtbo),
                },
            ),
            PatchStep::WriteVariant => {
                let b = self.variant.as_str().as_bytes();
                let data = copy_range(b, 0, b.len());
                assert(data@ =~= encode_utf8(self.variant@));
                Some(
                    PatchAction::Write {
                        path: "variant".to_string(),
                        label: "variant".to_string(),
                        create: true,
                        data,
                    },
                )
            },
            PatchStep::OpenExtlinux => Some(
                PatchAction::OpenDir {
                    path: "extlinux".to_string(),
                    label: "extlinux dir".to_string(),
                },
            ),
            PatchStep::ReadAlternate => Some(
                PatchAction::Read {
                    path: "extlinux/extlinux.conf.soysauce".to_string(),
                    label: "soysauce conf".to_string(),
                    optional: true,
                },
            ),
            PatchStep::ReadCurrent => Some(
                PatchAction::Read {
                    path: "extlinux/extlinux.conf".to_string(),
                    label: "extlinux.conf".to_string(),
                    optional: false,
                },
            ),
            PatchStep::WriteBackup => Some(
                PatchAction::Write {
                    path: "extlinux/extlinux.conf.bak".to_string(),
                    label: "conf backup".to_string(),
                    create: true,
                    data: copy_bytes(&self.current),
                },
            ),
            PatchStep::WriteCurrent => Some(
                PatchAction::Write {
                    path: "extlinux/extlinux.conf".to_string(),
                    label: "extlinux.conf".to_string(),
                    create: false,
                    data: copy_bytes(&self.alternate),
                },
            ),
            PatchStep::Unmount => Some(PatchAction::Unmount { label: "FAT".to_string() }),
            PatchStep::Finished => None,
        }
    }

    /// Goes on after the action has succeeded; `bytes` is what was read.
    pub fn proceed(&mut self, bytes: Vec<u8>)
        ensures
            final(self)@ == stepped(old(self)@, bytes@),
    {
        match self.step {
            PatchStep::CreateOverlays => {
                self.step = PatchStep::WriteOverlay;
            },
            PatchStep::WriteOverlay => {
                self.step = PatchStep::WriteVariant;
            },
            PatchStep::WriteVariant => {
                if same(self.variant.as_str(), "soysauce") {
                    self.step = PatchStep::OpenExtlinux;
                } else {
                    self.step = PatchStep::Unmount;
                }
            },
            PatchStep::OpenExtlinux => {
                self.step = PatchStep::ReadAlternate;
            },
            PatchStep::ReadAlternate => {
                if bytes.len() > 0 {
                    self.step = PatchStep::ReadCurrent;
                } else {
                    self.step = PatchStep::Unmount;
                }
                self.alternate = bytes;
            },
            PatchStep::ReadCurrent => {
                self.current = bytes;
                self.step = PatchStep::WriteBackup;
            },
            PatchStep::WriteBackup => {
                self.step = PatchStep::WriteCurrent;
            },
            PatchStep::WriteCurrent => {
                self.step = PatchStep::Unmount;
            },
            PatchStep::Unmount => {
                self.step = PatchStep::Finished;
            },
            PatchStep::Finished => {},
        }
    }
}

/// The message for a part of an action that has failed: what was being done,
/// to what, and the reason.
pub fn patch_message(verb: &str, label: &str, reason: &str) -> (r: String)
    ensures
        r@ == "err:image_patch "@ + verb@ + label@ + ": "@ + reason@,
{
    let a = join(join("err:image_patch ", verb).as_str(), label);
    join(join(a.as_str(), ": ").as_str(), reason)
}

/// The steps that are left, at most.
pub open spec fn patch_rank(step: PatchStep) -> nat {
    match step {
        PatchStep::CreateOverlays => 9,
        PatchStep::WriteOverlay => 8,
        PatchStep::WriteVariant => 7,
        PatchStep::OpenExtlinux => 6,
        PatchStep::ReadAlternate => 5,
        PatchStep::ReadCurrent => 4,
        PatchStep::WriteBackup => 3,
        PatchStep::WriteCurrent => 2,
        PatchStep::Unmount => 1,
        PatchStep::Finished => 0,
    }
}

/// The files of a partition after the patch has run on it from a state on, if
/// every file can be read and written. `None`: a file is missing.
pub open spec fn patched(files: Map<Seq<char>, Seq<u8>>, v: PatchView) -> Option<
    Map<Seq<char>, Seq<u8>>,
>
    decreases patch_rank(v.step),
{
    match action_of(v) {
        None => Some(files),
        Some(ActionView::Write { path, data, .. }) => patched(
            files.insert(path, data),
            stepped(v, Seq::empty()),
        ),
        Some(ActionView::Read { path, optional, .. }) => if files.contains_key(path) {
            patched(files, stepped(v, files[path]))
        } else if optional {
            patched(files, stepped(v, Seq::empty()))
        } else {
            None
        },
        Some(_) => patched(files, stepped(v, Seq::empty())),
    }
}

/// A finished patch has put the overlay and the variant into the partition.
/// For the soysauce variant, where there is an alternate configuration, that
/// has become the configuration, and the one before is in the backup. Every
/// other file is as it was.
pub proof fn lemma_patched(files: Map<Seq<char>, Seq<u8>>, dtbo: Seq<u8>, variant: Seq<char>)
    ensures
        ({
            let marked = files.insert("overlays/mipi-panel.dtbo"@, dtbo).insert(
                "variant"@,
                encode_utf8(variant),
            );
            let conf = "extlinux/extlinux.conf"@;
            let other = "extlinux/extlinux.conf.soysauce"@;
            patched(files, patch_start(dtbo, variant)) == (if variant == "soysauce"@
                && files.contains_key(other) && files[other].len() > 0 {
                if files.contains_key(conf) {
                    Some(
                        marked.insert("extlinux/extlinux.conf.bak"@, files[conf]).insert(
                            conf,
                            files[other],
                        ),
                    )
                } else {
                    None
                }
            } else {
                Some(marked)
            })
        }),
{
    reveal_with_fuel(patched, 10);
    reveal_strlit("overlays/mipi-panel.dtbo");
    reveal_strlit("variant");
    reveal_strlit("extlinux/extlinux.conf");
    reveal_strlit("extlinux/extlinux.conf.soysauce");
    let conf = "extlinux/extlinux.conf"@;
    let other = "extlinux/extlinux.conf.soysauce"@;
    assert("overlays/mipi-panel.dtbo"@.len() == 24);
    assert("variant"@.len() == 7);
    assert(conf.len() == 22);
    assert(other.len() == 31);
}

} // verus!
