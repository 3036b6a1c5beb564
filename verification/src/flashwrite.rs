//! Writing an image to a device and reading it back: which bytes to read
//! next, how they are padded, when to sync, and whether what was read is what
//! was written.

use crate::digest::{sha256_of, Hasher};
use crate::text::{
    decimal, decimal_of, digit, hex_byte, hex_bytes, join, same, starts, starts_with, views,
};
use crate::dtbo_builder::zeros;
use vstd::prelude::*;

verus! {

/// The size of a chunk.
pub const CHUNK_BYTES: usize = 0x40_0000;

/// How many bytes may be written between two syncs.
pub const FSYNC_INTERVAL_BYTES: u64 = 0x400_0000;

/// The block size that unbuffered writes are padded to.
pub const BLOCK_BYTES: usize = 4096;

// ---------------------------------------------------------------------------
// Arguments
// ---------------------------------------------------------------------------

/// The arguments of the write helper.
pub struct WriteArgs {
    pub image_path: String,
    pub device_path: String,
    pub progress_path: String,
    pub verify: bool,
}

/// The arguments that are no options.
pub open spec fn positional(args: Seq<Seq<char>>) -> Seq<Seq<char>>
    decreases args.len(),
{
    if args.len() == 0 {
        Seq::empty()
    } else if starts(args.last(), "--"@) {
        positional(args.drop_last())
    } else {
        positional(args.drop_last()).push(args.last())
    }
}

/// Reads the arguments: image, device and progress file, and `--no-verify`
/// anywhere. `None`: fewer than three arguments.
pub fn parse_args(args: &Vec<String>) -> (r: Option<WriteArgs>)
    ensures
        match r {
            Some(a) => {
                let p = positional(views(args@));
                &&& p.len() >= 3
                &&& a.image_path@ == p[0]
                &&& a.device_path@ == p[1]
                &&& a.progress_path@ == p[2]
                &&& a.verify == !views(args@).contains("--no-verify"@)
            },
            None => positional(views(args@)).len() < 3,
        },
{
    let ghost all = views(args@);
    let mut verify = true;
    let mut found: Vec<String> = Vec::new();
    let mut i: usize = 0;
    assert(views(found@) =~= positional(all.take(0)));
    while i < args.len()
        invariant
            i <= args@.len(),
            all == views(args@),
            views(found@) == positional(all.take(i as int)),
            verify == !all.take(i as int).contains("--no-verify"@),
        decreases args@.len() - i,
    {
        let a = args[i].as_str();
        let ghost before = all.take(i as int);
        let ghost after = all.take(i + 1);
        assert(after.drop_last() =~= before);
        assert(after.last() == a@);
        if same(a, "--no-verify") {
            verify = false;
            assert(after[i as int] == "--no-verify"@);
        } else {
            assert(after.contains("--no-verify"@) ==> before.contains("--no-verify"@)) by {
                if after.contains("--no-verify"@) {
                    let k = choose|k: int| 0 <= k < after.len() && after[k] == "--no-verify"@;
                    assert(before[k] == "--no-verify"@);
                }
            }
        }
        assert(before.contains("--no-verify"@) ==> after.contains("--no-verify"@)) by {
            if before.contains("--no-verify"@) {
                let k = choose|k: int| 0 <= k < before.len() && before[k] == "--no-verify"@;
                assert(after[k] == "--no-verify"@);
            }
        }
        if !starts_with(a, "--") {
            let s = a.to_string();
            proof {
                crate::text::lemma_views_push(found@, s);
            }
            found.push(s);
        }
        i += 1;
    }
    assert(all.take(i as int) =~= all);
    if found.len() < 3 {
        return None;
    }
    let ghost p = views(found@);
    assert(p[0] == found@[0]@ && p[1] == found@[1]@ && p[2] == found@[2]@);
    Some(
        WriteArgs {
            image_path: found[0].clone(),
            device_path: found[1].clone(),
            progress_path: found[2].clone(),
            verify,
        },
    )
}

/// The exit code of the write helper: two without enough arguments, one after
/// a fault, zero else.
pub fn exit_code(outcome: Option<bool>) -> (r: i32)
    ensures
        r == (match outcome {
            None => 2,
            Some(false) => 1,
            Some(true) => 0int,
        }),
{
    match outcome {
        None => 2,
        Some(false) => 1,
        Some(true) => 0,
    }
}

// ---------------------------------------------------------------------------
// Writing
// ---------------------------------------------------------------------------

/// `n` rounded up to a multiple of `unit`.
pub open spec fn rounded(n: int, unit: int) -> int {
    (n + unit - 1) / unit * unit
}

/// The size of a write of `n` bytes in blocks of `unit`.
pub fn round_up(n: usize, unit: usize) -> (r: usize)
    requires
        unit > 0,
        n + unit <= usize::MAX,
    ensures
        r == rounded(n as int, unit as int),
        n <= r < n + unit,
{
    let k = (n + unit - 1) / unit;
    assert(k * unit <= n + unit - 1 && n <= k * unit) by (nonlinear_arith)
        requires
            unit > 0,
            k == (n + unit - 1) / (unit as int),
    ;
    k * unit
}

/// What a writer has done: the image bytes it took, the bytes it sent to the
/// device, and how many of the image bytes are known to be on the card.
#[verifier::ext_equal]
pub ghost struct WriterView {
    pub image_size: int,
    pub unit: int,
    pub data: Seq<u8>,
    pub sent: Seq<u8>,
    pub synced: int,
}

/// Streams an image to a device in chunks, padded to whole blocks.
pub struct ImageWriter {
    image_size: u64,
    unit: usize,
    written: u64,
    synced: u64,
    hasher: Hasher,
    sent: Ghost<Seq<u8>>,
}

impl ImageWriter {
    pub closed spec fn view(&self) -> WriterView {
        WriterView {
            image_size: self.image_size as int,
            unit: self.unit as int,
            data: self.hasher@,
            sent: self.sent@,
            synced: self.synced as int,
        }
    }

    pub closed spec fn wf(&self) -> bool {
        &&& self.written == self.hasher@.len()
        &&& self.synced <= self.written <= self.image_size
        &&& self.unit == 1 || self.unit == BLOCK_BYTES
    }

    /// A writer of an image of `image_size` bytes, in whole blocks where
    /// writes are not buffered.
    pub fn new(image_size: u64, unbuffered: bool) -> (r: Self)
        ensures
            r.wf(),
            r@ == (WriterView {
                image_size: image_size as int,
                unit: if unbuffered {
                    BLOCK_BYTES as int
                } else {
                    1
                },
                data: Seq::empty(),
                sent: Seq::empty(),
                synced: 0,
            }),
    {
        let unit: usize = if unbuffered {
            BLOCK_BYTES
        } else {
            1
        };
        ImageWriter {
            image_size,
            unit,
            written: 0,
            synced: 0,
            hasher: Hasher::new(),
            sent: Ghost(Seq::empty()),
        }
    }

    /// How many bytes were taken.
    pub fn written(&self) -> (r: u64)
        requires
            self.wf(),
        ensures
            r == self@.data.len(),
    {
        self.written
    }

    /// How many bytes of the image to read next: a chunk, or what is left.
    pub fn next_len(&self) -> (r: usize)
        requires
            self.wf(),
        ensures
            r == next_len(self@),
    {
        let left = self.image_size - self.written;
        if left < CHUNK_BYTES as u64 {
            left as usize
        } else {
            CHUNK_BYTES
        }
    }

    /// Takes the bytes that were read, and says how many bytes to write: the
    /// bytes followed by zeros up to a whole block.
    pub fn take(&mut self, data: &[u8]) -> (r: usize)
        requires
            old(self).wf(),
            data@.len() <= next_len(old(self)@),
        ensures
            final(self).wf(),
            r == rounded(data@.len() as int, old(self)@.unit),
            final(self)@ == (WriterView {
                data: old(self)@.data + data@,
                sent: old(self)@.sent + data@ + zeros((r - data@.len()) as nat),
                ..old(self)@
            }),
    {
        self.hasher.update(data);
        self.written = self.written + data.len() as u64;
        let r = round_up(data.len(), self.unit);
        proof {
            self.sent@ = self.sent@ + data@ + zeros((r - data@.len()) as nat);
        }
        r
    }

    /// Whether it is time to sync; if so, the bytes so far count as synced.
    pub fn sync_due(&mut self) -> (r: bool)
        requires
            old(self).wf(),
        ensures
            final(self).wf(),
            r == (old(self)@.data.len() - old(self)@.synced >= FSYNC_INTERVAL_BYTES),
            final(self)@ == (WriterView {
                synced: if r {
                    old(self)@.data.len() as int
                } else {
                    old(self)@.synced
                },
                ..old(self)@
            }),
    {
        if self.written - self.synced >= FSYNC_INTERVAL_BYTES {
            self.synced = self.written;
            true
        } else {
            false
        }
    }

    /// The SHA-256 digest of the image bytes that were taken.
    pub fn finish(self) -> (r: String)
        requires
            self.wf(),
        ensures
            r@ == hex_bytes(sha256_of(self@.data)@),
    {
        self.hasher.finish()
    }
}

/// Fills a buffer with zeros from `filled` up to `size`: what is written of a
/// chunk are its bytes and the zeros behind them.
pub fn pad(buf: &mut [u8], filled: usize, size: usize)
    requires
        filled <= size <= old(buf)@.len(),
    ensures
        final(buf)@.len() == old(buf)@.len(),
        final(buf)@.take(size as int) == old(buf)@.take(filled as int) + zeros(
            (size - filled) as nat,
        ),
        final(buf)@.skip(size as int) == old(buf)@.skip(size as int),
{
    let ghost before = buf@;
    let mut i: usize = filled;
    while i < size
        invariant
            filled <= i <= size <= buf@.len(),
            buf@.len() == before.len(),
            forall|j: int| 0 <= j < filled ==> buf@[j] == before[j],
            forall|j: int| filled <= j < i ==> buf@[j] == 0,
            forall|j: int| i <= j < buf@.len() ==> buf@[j] == before[j],
        decreases size - i,
    {
        buf[i] = 0;
        i += 1;
    }
    assert(buf@.take(size as int) =~= before.take(filled as int) + zeros((size - filled) as nat));
    assert(buf@.skip(size as int) =~= before.skip(size as int));
}

/// How many bytes of the image to read next.
pub open spec fn next_len(w: WriterView) -> int {
    if w.image_size - w.data.len() < CHUNK_BYTES {
        w.image_size - w.data.len()
    } else {
        CHUNK_BYTES as int
    }
}

/// The device got the image bytes taken so far, and after the last of them
/// zeros that fill the block.
pub open spec fn faithful(w: WriterView) -> bool {
    let pad = rounded(w.data.len() as int, w.unit) - w.data.len();
    &&& 0 <= pad
    &&& w.sent == w.data + zeros(pad as nat)
    &&& w.data.len() <= w.image_size
    &&& w.data.len() < w.image_size ==> pad == 0
}

proof fn lemma_rounded_block(n: int)
    ensures
        rounded(n, 4096) == (n + 4095) / 4096 * 4096,
{
    assert((n + 4096 - 1) / 4096 == (n + 4095) / 4096);
}

proof fn lemma_rounded_byte(n: int)
    ensures
        rounded(n, 1) == n,
{
    assert((n + 1 - 1) / 1 * 1 == n) by (nonlinear_arith);
}

/// A device that gets every chunk in full holds the image: each chunk lands
/// behind the one before, and only the last one is padded.
pub proof fn lemma_faithful(w: WriterView, chunk: Seq<u8>)
    requires
        w.unit == 1 || w.unit == BLOCK_BYTES,
        faithful(w),
        0 < chunk.len(),
        chunk.len() == next_len(w),
    ensures
        ({
            let n = rounded(chunk.len() as int, w.unit) - chunk.len();
            faithful(
                WriterView {
                    data: w.data + chunk,
                    sent: w.sent + chunk + zeros(n as nat),
                    ..w
                },
            )
        }),
{
    let n = rounded(chunk.len() as int, w.unit) - chunk.len();
    let d = w.data.len() as int;
    let c = chunk.len() as int;
    if w.unit == 1 {
        lemma_rounded_byte(c);
        lemma_rounded_byte(d + c);
    } else {
        lemma_rounded_block(d);
        lemma_rounded_block(c);
        lemma_rounded_block(d + c);
    }
    assert(w.sent =~= w.data);
    assert(w.sent + chunk + zeros(n as nat) =~= (w.data + chunk) + zeros(n as nat));
}

/// A device with other bytes from `at` on.
pub open spec fn overwritten(device: Seq<u8>, at: int, bytes: Seq<u8>) -> Seq<u8> {
    device.take(at) + bytes + device.skip(at + bytes.len())
}

/// A device that got the whole image holds it, and behind it zeros up to the
/// block; the rest of the device is as it was.
pub proof fn lemma_image_on_device(device: Seq<u8>, w: WriterView)
    requires
        w.unit == 1 || w.unit == BLOCK_BYTES,
        faithful(w),
        w.data.len() == w.image_size,
        w.sent.len() <= device.len(),
    ensures
        ({
            let n = w.data.len() as int;
            let end = rounded(n, w.unit);
            let d = overwritten(device, 0, w.sent);
            &&& d.len() == device.len()
            &&& d.take(n) == w.data
            &&& forall|i: int| n <= i < end ==> #[trigger] d[i] == 0
            &&& end <= rounded(n, BLOCK_BYTES as int)
            &&& forall|i: int| end <= i < d.len() ==> #[trigger] d[i] == device[i]
        }),
{
    let n = w.data.len() as int;
    let d = overwritten(device, 0, w.sent);
    lemma_rounded_block(n);
    if w.unit == 1 {
        lemma_rounded_byte(n);
    }
    assert(d.take(n) =~= w.data);
}

// ---------------------------------------------------------------------------
// Verifying
// ---------------------------------------------------------------------------

/// Reads a device back through a digest.
pub struct ImageReader {
    total: u64,
    done: u64,
    last_percent: u32,
    hasher: Hasher,
}

impl ImageReader {
    /// The bytes that were read.
    pub closed spec fn view(&self) -> Seq<u8> {
        self.hasher@
    }

    pub closed spec fn total(&self) -> int {
        self.total as int
    }

    /// The percentage that was reported last.
    pub closed spec fn reported(&self) -> u32 {
        self.last_percent
    }

    pub closed spec fn wf(&self) -> bool {
        self.done == self.hasher@.len() && self.done <= self.total
    }

    pub fn new(total: u64) -> (r: Self)
        ensures
            r.wf(),
            r.total() == total,
            r@ == Seq::<u8>::empty(),
            r.reported() == u32::MAX,
    {
        ImageReader { total, done: 0, last_percent: u32::MAX, hasher: Hasher::new() }
    }

    /// How many bytes were read.
    pub fn done(&self) -> (r: u64)
        requires
            self.wf(),
        ensures
            r == self@.len(),
    {
        self.done
    }

    /// How many of `available` bytes are still of use.
    pub fn usable(&self, available: usize) -> (r: usize)
        requires
            self.wf(),
        ensures
            r == (if self.total() - self@.len() < available {
                self.total() - self@.len()
            } else {
                available as int
            }),
    {
        let left = self.total - self.done;
        if left < available as u64 {
            left as usize
        } else {
            available
        }
    }

    /// Takes bytes that were read.
    pub fn take(&mut self, data: &[u8])
        requires
            old(self).wf(),
            old(self)@.len() + data@.len() <= old(self).total(),
        ensures
            final(self).wf(),
            final(self)@ == old(self)@ + data@,
            final(self).total() == old(self).total(),
            final(self).reported() == old(self).reported(),
    {
        self.hasher.update(data);
        self.done = self.done + data.len() as u64;
    }

    /// Whether a percentage is news.
    pub fn report(&mut self, percent: u32) -> (r: bool)
        requires
            old(self).wf(),
        ensures
            final(self).wf(),
            r == (percent != old(self).reported()),
            final(self).reported() == percent,
            final(self)@ == old(self)@,
            final(self).total() == old(self).total(),
    {
        if percent != self.last_percent {
            self.last_percent = percent;
            true
        } else {
            false
        }
    }

    /// The SHA-256 digest of all the bytes; or, if some did not come, how many
    /// there were.
    pub fn finish(self) -> (r: Result<String, u64>)
        requires
            self.wf(),
        ensures
            match r {
                Ok(h) => self@.len() == self.total() && h@ == hex_bytes(sha256_of(self@)@),
                Err(n) => self@.len() != self.total() && n == self@.len(),
            },
    {
        if self.done != self.total {
            return Err(self.done);
        }
        Ok(self.hasher.finish())
    }
}

/// The text for the progress file when the writing starts.
pub fn writing_text() -> (r: String)
    ensures
        r@ == "STAGE:writing"@,
{
    "STAGE:writing".to_string()
}

/// The text of a count of written bytes for the progress file.
pub fn written_text(bytes: u64) -> (r: String)
    ensures
        r@ == decimal(bytes as nat),
{
    decimal_of(bytes)
}

/// The text of a percentage for the progress file.
pub fn verifying_text(percent: u32) -> (r: String)
    ensures
        r@ == "STAGE:verifying:"@ + decimal(percent as nat),
{
    join("STAGE:verifying:", decimal_of(percent as u64).as_str())
}

/// The message for a device that ends too early.
pub fn short_read_text(read: u64, total: u64) -> (r: String)
    ensures
        r@ == "verify: short read on device ("@ + decimal(read as nat) + " of "@ + decimal(
            total as nat,
        ) + " bytes)"@,
{
    let a = join("verify: short read on device (", decimal_of(read).as_str());
    let b = join(join(a.as_str(), " of ").as_str(), decimal_of(total).as_str());
    join(b.as_str(), " bytes)")
}

/// Compares the digest of what was written with that of what was read.
pub fn compare_hashes(write_hash: &str, verify_hash: &str) -> (r: Result<(), String>)
    ensures
        match r {
            Ok(_) => write_hash@ == verify_hash@,
            Err(e) => write_hash@ != verify_hash@ && e@
                == "Verifying write failed. Contents of SD card is different from what was written to it.\n  expected: "@
                + write_hash@ + "\n  got:      "@ + verify_hash@,
        },
{
    if same(write_hash, verify_hash) {
        return Ok(());
    }
    let a = join(
        "Verifying write failed. Contents of SD card is different from what was written to it.\n  expected: ",
        write_hash,
    );
    let b = join(join(a.as_str(), "\n  got:      ").as_str(), verify_hash);
    Err(b)
}

/// Ends the writing: the digest of what was written, and what reads it back
/// if it is to be verified.
pub fn after_write(writer: ImageWriter, verify: bool) -> (r: (String, Option<ImageReader>))
    requires
        writer.wf(),
    ensures
        r.0@ == hex_bytes(sha256_of(writer@.data)@),
        match r.1 {
            Some(reader) => {
                &&& verify
                &&& reader.wf()
                &&& reader.total() == writer@.data.len()
                &&& reader@ == Seq::<u8>::empty()
                &&& reader.reported() == u32::MAX
            },
            None => !verify,
        },
{
    let total = writer.written();
    let hash = writer.finish();
    if verify {
        (hash, Some(ImageReader::new(total)))
    } else {
        (hash, None)
    }
}

/// The verdict on a device that was read back.
pub open spec fn verdict(write_hash: Seq<char>, read: Seq<u8>, total: int) -> Result<(), Seq<char>> {
    let hash = hex_bytes(sha256_of(read)@);
    if read.len() != total {
        Err(
            "verify: short read on device ("@ + decimal(read.len()) + " of "@ + decimal(
                total as nat,
            ) + " bytes)"@,
        )
    } else if write_hash != hash {
        Err(
            "Verifying write failed. Contents of SD card is different from what was written to it.\n  expected: "@
                + write_hash + "\n  got:      "@ + hash,
        )
    } else {
        Ok(())
    }
}

/// Ends the verification.
pub fn conclude(write_hash: &str, reader: ImageReader) -> (r: Result<(), String>)
    requires
        reader.wf(),
    ensures
        match r {
            Ok(_) => verdict(write_hash@, reader@, reader.total()) is Ok,
            Err(e) => verdict(write_hash@, reader@, reader.total()) == Err::<(), Seq<char>>(e@),
        },
{
    let total = reader.total;
    match reader.finish() {
        Ok(hash) => compare_hashes(write_hash, hash.as_str()),
        Err(n) => Err(short_read_text(n, total)),
    }
}

/// The last text for the progress file: that the write is done, once the
/// verification has passed or where there is none. After a verification that
/// failed nothing more is announced.
pub fn last_stage(verdict: Option<&Result<(), String>>) -> (r: Option<String>)
    ensures
        r is Some <==> (verdict is None || verdict->0 is Ok),
        r matches Some(s) ==> s@ == "STAGE:done"@,
{
    let done = match verdict {
        Some(v) => v.is_ok(),
        None => true,
    };
    if done {
        Some("STAGE:done".to_string())
    } else {
        None
    }
}

/// A device that gives back what was written passes, and one that passes has
/// the digest of what was written.
pub proof fn lemma_verdict(written: Seq<u8>, read: Seq<u8>)
    ensures
        read == written ==> verdict(hex_bytes(sha256_of(written)@), read, written.len() as int)
            is Ok,
        verdict(hex_bytes(sha256_of(written)@), read, written.len() as int) is Ok ==> read.len()
            == written.len() && sha256_of(read)@ == sha256_of(written)@,
{
    if hex_bytes(sha256_of(written)@) == hex_bytes(sha256_of(read)@) {
        lemma_hex_injective(sha256_of(written)@, sha256_of(read)@);
    }
}

proof fn lemma_digit_injective(a: nat, b: nat)
    requires
        a < 16,
        b < 16,
        digit(a) == digit(b),
    ensures
        a == b,
{
}

/// Digests are equal if their hexadecimal forms are: the comparison accepts
/// exactly the equal digests.
pub proof fn lemma_hex_injective(a: Seq<u8>, b: Seq<u8>)
    requires
        hex_bytes(a) == hex_bytes(b),
    ensures
        a == b,
    decreases a.len(),
{
    crate::digest::lemma_hex_len(a);
    crate::digest::lemma_hex_len(b);
    if a.len() > 0 {
        let x = hex_bytes(a.drop_last());
        let y = hex_bytes(b.drop_last());
        let p = hex_byte(a.last());
        let q = hex_byte(b.last());
        crate::digest::lemma_hex_len(a.drop_last());
        crate::digest::lemma_hex_len(b.drop_last());
        let n = x.len() as int;
        assert(hex_bytes(a).take(n) =~= x);
        assert(hex_bytes(b).take(n) =~= y);
        assert(hex_bytes(a)[n] == p[0] && hex_bytes(a)[n + 1] == p[1]);
        assert(hex_bytes(b)[n] == q[0] && hex_bytes(b)[n + 1] == q[1]);
        lemma_hex_injective(a.drop_last(), b.drop_last());
        lemma_digit_injective((a.last() / 16) as nat, (b.last() / 16) as nat);
        lemma_digit_injective((a.last() % 16) as nat, (b.last() % 16) as nat);
        assert(a =~= a.drop_last().push(a.last()));
        assert(b =~= b.drop_last().push(b.last()));
    } else {
        assert(a =~= b);
    }
}

} // verus!
