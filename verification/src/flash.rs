//! The parts of flashing that all platforms share: checking the device and
//! the space for it, reading the progress file, the order of the steps, and
//! what a failed run means.

use crate::text::{
    all_digits, chars_of, decimal, ends, ends_with, is_digit, join, lemma_decimal_reads,
    lemma_trimmed_already, number_in, parse_number, same, starts, starts_with, strip_all, trim,
    trim_start_matches, trimmed,
};
use vstd::prelude::*;

verus! {

#[derive(Debug, Clone, Copy, PartialEq, Eq, Structural)]
pub enum Platform {
    Linux,
    MacOs,
    Windows,
    Other,
}

// ---------------------------------------------------------------------------
// The device
// ---------------------------------------------------------------------------

/// The file that says whether a device can be removed.
pub fn removable_path(device: &str) -> (r: String)
    ensures
        r@ == "/sys/block/"@ + strip_all(device@, "/dev/"@) + "/removable"@,
{
    let name = trim_start_matches(device, "/dev/");
    join(join("/sys/block/", name.as_str()).as_str(), "/removable")
}

/// Why a device is not flashed, if it is not. `removable` is what the file
/// that says whether it can be removed holds.
pub open spec fn device_fault(
    platform: Platform,
    device: Seq<char>,
    exists: bool,
    removable: Seq<char>,
) -> Option<Seq<char>> {
    let drive = "\\\\.\\PhysicalDrive"@;
    let number = strip_all(device, drive);
    if device.len() == 0 {
        Some("No device specified"@)
    } else if !starts(device, "/dev/"@) && !starts(device, "\\\\.\\"@) {
        Some("Invalid device path: "@ + device)
    } else if (platform == Platform::Linux || platform == Platform::MacOs) && !exists {
        Some("Device not found. Was the SD card removed?"@)
    } else if platform == Platform::Linux && trimmed(removable) != "1"@ {
        Some(device + " is not a removable device"@)
    } else if platform == Platform::Windows && !starts(device, drive) {
        Some("Invalid device path: "@ + device)
    } else if platform == Platform::Windows && (number.len() == 0 || !all_digits(number)) {
        Some("Invalid disk number in: "@ + device)
    } else {
        None
    }
}

fn only_digits(s: &str) -> (r: bool)
    ensures
        r == all_digits(s@),
{
    let a = chars_of(s);
    let mut i: usize = 0;
    while i < a.len()
        invariant
            i <= a@.len(),
            a@ == s@,
            forall|j: int| 0 <= j < i ==> is_digit(#[trigger] a@[j]),
        decreases a@.len() - i,
    {
        if a[i] < '0' || a[i] > '9' {
            assert(!is_digit(s@[i as int]));
            return false;
        }
        i += 1;
    }
    true
}

/// Checks again, before flashing, that the device is a removable disk that is
/// still there.
pub fn validate_device(platform: Platform, device: &str, exists: bool, removable: &str) -> (r: Result<
    (),
    String,
>)
    ensures
        match r {
            Ok(_) => device_fault(platform, device@, exists, removable@) is None,
            Err(e) => device_fault(platform, device@, exists, removable@) == Some(e@),
        },
{
    if device.is_empty() {
        return Err("No device specified".to_string());
    }
    if !starts_with(device, "/dev/") && !starts_with(device, "\\\\.\\") {
        return Err(join("Invalid device path: ", device));
    }
    if (platform == Platform::Linux || platform == Platform::MacOs) && !exists {
        return Err("Device not found. Was the SD card removed?".to_string());
    }
    if platform == Platform::Linux && !same(trim(removable).as_str(), "1") {
        return Err(join(device, " is not a removable device"));
    }
    if platform == Platform::Windows {
        if !starts_with(device, "\\\\.\\PhysicalDrive") {
            return Err(join("Invalid device path: ", device));
        }
        let number = trim_start_matches(device, "\\\\.\\PhysicalDrive");
        if number.as_str().is_empty() || !only_digits(number.as_str()) {
            return Err(join("Invalid disk number in: ", device));
        }
    }
    Ok(())
}

/// The temporary space that is needed and what there is of it.
#[derive(Debug, Clone, Copy, PartialEq, Eq, Structural)]
pub struct Shortage {
    pub needed: u64,
    pub available: u64,
}

/// Checks the temporary space for a compressed image, which is taken to grow
/// to four times its size.
pub fn check_temp_space(src_size: u64, available: u64) -> (r: Result<(), Shortage>)
    requires
        src_size * 4 <= u64::MAX,
    ensures
        match r {
            Ok(_) => available >= src_size * 4,
            Err(s) => available < src_size * 4 && s.needed == src_size * 4 && s.available
                == available,
        },
{
    let needed = src_size * 4;
    if available < needed {
        Err(Shortage { needed, available })
    } else {
        Ok(())
    }
}

// ---------------------------------------------------------------------------
// The progress file
// ---------------------------------------------------------------------------

#[derive(Debug, Clone, Copy, PartialEq, Eq, Structural)]
pub enum CardSpeed {
    Slow,
    Medium,
    Fast,
}

/// What the progress file says.
pub enum Update {
    /// Verifying; the text is the percentage.
    Verifying(String),
    Testing,
    /// The speed of the card, in megabytes a second.
    Speed(CardSpeed, u32),
    Finalizing,
    /// The verification failed; the text says how.
    VerifyFailed(String),
    /// So many bytes are written.
    Written(u64),
    Nothing,
}

pub ghost enum UpdateView {
    Verifying(Seq<char>),
    Testing,
    Speed(CardSpeed, int),
    Finalizing,
    VerifyFailed(Seq<char>),
    Written(int),
    Nothing,
}

impl Update {
    pub open spec fn view(&self) -> UpdateView {
        match self {
            Update::Verifying(s) => UpdateView::Verifying(s@),
            Update::Testing => UpdateView::Testing,
            Update::Speed(q, n) => UpdateView::Speed(*q, *n as int),
            Update::Finalizing => UpdateView::Finalizing,
            Update::VerifyFailed(s) => UpdateView::VerifyFailed(s@),
            Update::Written(n) => UpdateView::Written(*n as int),
            Update::Nothing => UpdateView::Nothing,
        }
    }
}

/// The number in a text, or zero.
pub open spec fn number_or_zero(s: Seq<char>) -> int {
    match number_in(s, u32::MAX as nat) {
        Some(n) => n as int,
        None => 0,
    }
}

/// What the contents of the progress file mean.
pub open spec fn update_in(content: Seq<char>) -> UpdateView {
    let c = trimmed(content);
    if starts(c, "STAGE:verifying:"@) {
        UpdateView::Verifying(strip_all(c, "STAGE:verifying:"@))
    } else if starts(c, "STAGE:testing"@) {
        UpdateView::Testing
    } else if starts(c, "STAGE:speed_slow:"@) {
        UpdateView::Speed(CardSpeed::Slow, number_or_zero(strip_all(c, "STAGE:speed_slow:"@)))
    } else if starts(c, "STAGE:speed_medium:"@) {
        UpdateView::Speed(CardSpeed::Medium, number_or_zero(strip_all(c, "STAGE:speed_medium:"@)))
    } else if starts(c, "STAGE:speed_ok:"@) {
        UpdateView::Speed(CardSpeed::Fast, number_or_zero(strip_all(c, "STAGE:speed_ok:"@)))
    } else if starts(c, "STAGE:done"@) {
        UpdateView::Finalizing
    } else if starts(c, "VERIFY_FAILED"@) {
        UpdateView::VerifyFailed(strip_all(c, "VERIFY_FAILED:"@))
    } else {
        match number_in(c, u64::MAX as nat) {
            Some(n) => UpdateView::Written(n as int),
            None => UpdateView::Nothing,
        }
    }
}

fn speed_after(c: &str, prefix: &str) -> (r: u32)
    ensures
        r == number_or_zero(strip_all(c@, prefix@)),
{
    match parse_number(trim_start_matches(c, prefix).as_str(), 0xffff_ffff) {
        Some(n) => n as u32,
        None => 0,
    }
}

/// Reads the progress file.
pub fn read_update(content: &str) -> (r: Update)
    ensures
        r@ == update_in(content@),
{
    let text = trim(content);
    let c = text.as_str();
    if starts_with(c, "STAGE:verifying:") {
        Update::Verifying(trim_start_matches(c, "STAGE:verifying:"))
    } else if starts_with(c, "STAGE:testing") {
        Update::Testing
    } else if starts_with(c, "STAGE:speed_slow:") {
        Update::Speed(CardSpeed::Slow, speed_after(c, "STAGE:speed_slow:"))
    } else if starts_with(c, "STAGE:speed_medium:") {
        Update::Speed(CardSpeed::Medium, speed_after(c, "STAGE:speed_medium:"))
    } else if starts_with(c, "STAGE:speed_ok:") {
        Update::Speed(CardSpeed::Fast, speed_after(c, "STAGE:speed_ok:"))
    } else if starts_with(c, "STAGE:done") {
        Update::Finalizing
    } else if starts_with(c, "VERIFY_FAILED") {
        Update::VerifyFailed(trim_start_matches(c, "VERIFY_FAILED:"))
    } else {
        match parse_number(c, u64::MAX) {
            Some(n) => Update::Written(n),
            None => Update::Nothing,
        }
    }
}

proof fn lemma_other_start(c: Seq<char>, p: Seq<char>, k: int)
    requires
        0 <= k < p.len(),
        k < c.len(),
        c[k] != p[k],
    ensures
        !starts(c, p),
{
    if starts(c, p) {
        assert(c.subrange(0, p.len() as int)[k] == c[k]);
    }
}

/// What the writer puts into the progress file is read as what it means: a
/// count of bytes, a percentage of the verification, and the end.
pub proof fn lemma_progress_read(bytes: u64, percent: u32)
    ensures
        update_in(decimal(bytes as nat)) == UpdateView::Written(bytes as int),
        update_in("STAGE:verifying:"@ + decimal(percent as nat)) == UpdateView::Verifying(
            decimal(percent as nat),
        ),
        update_in("STAGE:done"@) == UpdateView::Finalizing,
        update_in("STAGE:writing"@) == UpdateView::Nothing,
{
    reveal_strlit("STAGE:verifying:");
    reveal_strlit("STAGE:testing");
    reveal_strlit("STAGE:speed_slow:");
    reveal_strlit("STAGE:speed_medium:");
    reveal_strlit("STAGE:speed_ok:");
    reveal_strlit("STAGE:done");
    reveal_strlit("STAGE:writing");
    reveal_strlit("VERIFY_FAILED");
    let n = decimal(bytes as nat);
    lemma_decimal_reads(bytes as nat);
    assert(is_digit(n[0]) && is_digit(n.last()));
    lemma_trimmed_already(n);
    lemma_other_start(n, "STAGE:verifying:"@, 0);
    lemma_other_start(n, "STAGE:testing"@, 0);
    lemma_other_start(n, "STAGE:speed_slow:"@, 0);
    lemma_other_start(n, "STAGE:speed_medium:"@, 0);
    lemma_other_start(n, "STAGE:speed_ok:"@, 0);
    lemma_other_start(n, "STAGE:done"@, 0);
    lemma_other_start(n, "VERIFY_FAILED"@, 0);
    let d = decimal(percent as nat);
    let v = "STAGE:verifying:"@ + d;
    lemma_decimal_reads(percent as nat);
    assert(is_digit(d[0]) && is_digit(d.last()));
    assert(v.last() == d.last());
    assert("STAGE:verifying:"@.len() == 16);
    lemma_trimmed_already(v);
    assert(v.subrange(0, 16) =~= "STAGE:verifying:"@);
    assert(v.skip(16) =~= d);
    lemma_other_start(d, "STAGE:verifying:"@, 0);
    assert(strip_all(v.skip(16), "STAGE:verifying:"@) == d);
    let e = "STAGE:done"@;
    lemma_trimmed_already(e);
    lemma_other_start(e, "STAGE:verifying:"@, 6);
    lemma_other_start(e, "STAGE:testing"@, 6);
    lemma_other_start(e, "STAGE:speed_slow:"@, 6);
    lemma_other_start(e, "STAGE:speed_medium:"@, 6);
    lemma_other_start(e, "STAGE:speed_ok:"@, 6);
    assert(e.subrange(0, 10) =~= e);
    let w = "STAGE:writing"@;
    lemma_trimmed_already(w);
    lemma_other_start(w, "STAGE:verifying:"@, 6);
    lemma_other_start(w, "STAGE:testing"@, 6);
    lemma_other_start(w, "STAGE:speed_slow:"@, 6);
    lemma_other_start(w, "STAGE:speed_medium:"@, 6);
    lemma_other_start(w, "STAGE:speed_ok:"@, 6);
    lemma_other_start(w, "STAGE:done"@, 6);
    lemma_other_start(w, "VERIFY_FAILED"@, 0);
    assert(!is_digit(w[0]));
}

/// The name of the stage that an update is shown as, and the percentage at
/// which that stage begins. A count of bytes is only shown where the size of
/// the image is known.
pub open spec fn shown_as(u: UpdateView, image_size: int) -> Option<(Seq<char>, int)> {
    match u {
        UpdateView::Verifying(_) => Some(("verifying"@, 90)),
        UpdateView::Testing => Some(("testing_sd"@, 55)),
        UpdateView::Speed(CardSpeed::Slow, _) => Some(("writing_safe"@, 56)),
        UpdateView::Speed(_, _) => Some(("writing"@, 56)),
        UpdateView::Finalizing => Some(("finalizing"@, 100)),
        UpdateView::VerifyFailed(_) => Some(("verify_failed"@, 0)),
        UpdateView::Written(_) => if image_size > 0 {
            Some(("writing"@, 55))
        } else {
            None
        },
        UpdateView::Nothing => None,
    }
}

/// How an update is shown for an image of `image_size` bytes; zero stands for
/// a size that is not known.
pub fn display_stage(u: &Update, image_size: u64) -> (r: Option<(String, u32)>)
    ensures
        match r {
            Some((name, percent)) => shown_as(u@, image_size as int) == Some(
                (name@, percent as int),
            ),
            None => shown_as(u@, image_size as int) is None,
        },
{
    match u {
        Update::Verifying(_) => Some(("verifying".to_string(), 90)),
        Update::Testing => Some(("testing_sd".to_string(), 55)),
        Update::Speed(CardSpeed::Slow, _) => Some(("writing_safe".to_string(), 56)),
        Update::Speed(_, _) => Some(("writing".to_string(), 56)),
        Update::Finalizing => Some(("finalizing".to_string(), 100)),
        Update::VerifyFailed(_) => Some(("verify_failed".to_string(), 0)),
        Update::Written(_) => if image_size > 0 {
            Some(("writing".to_string(), 55))
        } else {
            None
        },
        Update::Nothing => None,
    }
}

// ---------------------------------------------------------------------------
// The steps of a run
// ---------------------------------------------------------------------------

#[derive(Debug, Clone, Copy, PartialEq, Eq, Structural)]
pub enum Compression {
    Plain,
    Xz,
    Gz,
}

/// How an image file is compressed, by its name.
pub open spec fn compression(path: Seq<char>) -> Compression {
    if ends(path, ".xz"@) {
        Compression::Xz
    } else if ends(path, ".gz"@) {
        Compression::Gz
    } else {
        Compression::Plain
    }
}

/// How an image file is compressed.
pub fn compression_of(path: &str) -> (r: Compression)
    ensures
        r == compression(path@),
{
    if ends_with(path, ".xz") {
        Compression::Xz
    } else if ends_with(path, ".gz") {
        Compression::Gz
    } else {
        Compression::Plain
    }
}

#[derive(Debug, Clone, Copy, PartialEq, Eq, Structural)]
pub enum FlashStep {
    Validate,
    CheckSpace,
    Decompress,
    UnmountDisk,
    WriteScript,
    CreateProgress,
    LocateHelper,
    StageHelper,
    /// Runs the program that writes the card.
    RunHelper,
    /// Writes the card from this process.
    WriteCard,
    StopPolling,
    RemoveScript,
    RemoveProgress,
    RemoveHelper,
    RemoveImage,
    KeepLog,
    /// Mounts the boot partition of the card and sets it up.
    RunConfig,
    Judge,
}

pub open spec fn when(b: bool, steps: Seq<FlashStep>) -> Seq<FlashStep> {
    if b {
        steps
    } else {
        Seq::empty()
    }
}

/// The steps of a run, in order. A helper that cannot be run where it is gets
/// a copy.
pub open spec fn flash_plan(platform: Platform, c: Compression, copy_helper: bool) -> Seq<FlashStep> {
    let packed = c != Compression::Plain;
    let start = seq![FlashStep::Validate] + when(
        packed,
        seq![FlashStep::CheckSpace, FlashStep::Decompress],
    );
    match platform {
        Platform::Windows => start + seq![
            FlashStep::CreateProgress,
            FlashStep::WriteCard,
            FlashStep::StopPolling,
        ] + when(packed, seq![FlashStep::RemoveImage]) + seq![
            FlashStep::WriteScript,
            FlashStep::RunConfig,
            FlashStep::RemoveScript,
            FlashStep::RemoveProgress,
            FlashStep::Judge,
        ],
        Platform::MacOs => start + seq![
            FlashStep::UnmountDisk,
            FlashStep::WriteScript,
            FlashStep::CreateProgress,
            FlashStep::RunHelper,
            FlashStep::StopPolling,
            FlashStep::RemoveScript,
            FlashStep::RemoveProgress,
        ] + when(c == Compression::Xz, seq![FlashStep::RemoveImage]) + seq![
            FlashStep::KeepLog,
            FlashStep::Judge,
        ],
        _ => start + seq![
            FlashStep::WriteScript,
            FlashStep::CreateProgress,
            FlashStep::LocateHelper,
        ] + when(copy_helper, seq![FlashStep::StageHelper]) + seq![
            FlashStep::RunHelper,
            FlashStep::StopPolling,
            FlashStep::RemoveScript,
            FlashStep::RemoveProgress,
        ] + when(copy_helper, seq![FlashStep::RemoveHelper]) + when(
            packed,
            seq![FlashStep::RemoveImage],
        ) + seq![FlashStep::Judge],
    }
}

fn push_steps(out: &mut Vec<FlashStep>, b: bool, steps: Vec<FlashStep>)
    ensures
        final(out)@ == old(out)@ + when(b, steps@),
{
    if b {
        let mut i: usize = 0;
        while i < steps.len()
            invariant
                i <= steps@.len(),
                out@ == old(out)@ + steps@.take(i as int),
            decreases steps@.len() - i,
        {
            out.push(steps[i]);
            assert(out@ =~= old(out)@ + steps@.take(i + 1));
            i += 1;
        }
        assert(steps@.take(i as int) =~= steps@);
    }
    assert(out@ =~= old(out)@ + when(b, steps@));
}

/// The steps of a run.
pub fn flash_steps(platform: Platform, c: Compression, copy_helper: bool) -> (r: Vec<FlashStep>)
    ensures
        r@ == flash_plan(platform, c, copy_helper),
{
    let packed = c != Compression::Plain;
    let mut r: Vec<FlashStep> = vec![FlashStep::Validate];
    push_steps(&mut r, packed, vec![FlashStep::CheckSpace, FlashStep::Decompress]);
    match platform {
        Platform::Windows => {
            push_steps(
                &mut r,
                true,
                vec![FlashStep::CreateProgress, FlashStep::WriteCard, FlashStep::StopPolling],
            );
            push_steps(&mut r, packed, vec![FlashStep::RemoveImage]);
            push_steps(
                &mut r,
                true,
                vec![
                    FlashStep::WriteScript,
                    FlashStep::RunConfig,
                    FlashStep::RemoveScript,
                    FlashStep::RemoveProgress,
                    FlashStep::Judge,
                ],
            );
        },
        Platform::MacOs => {
            push_steps(
                &mut r,
                true,
                vec![
                    FlashStep::UnmountDisk,
                    FlashStep::WriteScript,
                    FlashStep::CreateProgress,
                    FlashStep::RunHelper,
                    FlashStep::StopPolling,
                    FlashStep::RemoveScript,
                    FlashStep::RemoveProgress,
                ],
            );
            push_steps(&mut r, c == Compression::Xz, vec![FlashStep::RemoveImage]);
            push_steps(&mut r, true, vec![FlashStep::KeepLog, FlashStep::Judge]);
        },
        _ => {
            push_steps(
                &mut r,
                true,
                vec![FlashStep::WriteScript, FlashStep::CreateProgress, FlashStep::LocateHelper],
            );
            push_steps(&mut r, copy_helper, vec![FlashStep::StageHelper]);
            push_steps(
                &mut r,
                true,
                vec![
                    FlashStep::RunHelper,
                    FlashStep::StopPolling,
                    FlashStep::RemoveScript,
                    FlashStep::RemoveProgress,
                ],
            );
            push_steps(&mut r, copy_helper, vec![FlashStep::RemoveHelper]);
            push_steps(&mut r, packed, vec![FlashStep::RemoveImage]);
            push_steps(&mut r, true, vec![FlashStep::Judge]);
        },
    }
    r
}

/// What is still done when a step has failed. A run ends at once, except that
/// a failed write from this process is still cleaned up after; and some steps
/// cannot spoil a run.
pub open spec fn after_failure(step: FlashStep, c: Compression) -> Option<Seq<FlashStep>> {
    match step {
        FlashStep::UnmountDisk | FlashStep::CreateProgress | FlashStep::StopPolling
        | FlashStep::RemoveScript | FlashStep::RemoveProgress | FlashStep::RemoveHelper
        | FlashStep::RemoveImage | FlashStep::KeepLog => None,
        FlashStep::WriteCard => Some(
            seq![FlashStep::StopPolling] + when(
                c != Compression::Plain,
                seq![FlashStep::RemoveImage],
            ) + seq![FlashStep::RemoveProgress],
        ),
        _ => Some(Seq::empty()),
    }
}

/// What is still done when a step has failed; `None` if the run goes on.
pub fn steps_after_failure(step: FlashStep, c: Compression) -> (r: Option<Vec<FlashStep>>)
    ensures
        match r {
            Some(v) => after_failure(step, c) == Some(v@),
            None => after_failure(step, c) is None,
        },
{
    match step {
        FlashStep::UnmountDisk | FlashStep::CreateProgress | FlashStep::StopPolling
        | FlashStep::RemoveScript | FlashStep::RemoveProgress | FlashStep::RemoveHelper
        | FlashStep::RemoveImage | FlashStep::KeepLog => None,
        FlashStep::WriteCard => {
            let mut r: Vec<FlashStep> = vec![FlashStep::StopPolling];
            push_steps(&mut r, c != Compression::Plain, vec![FlashStep::RemoveImage]);
            push_steps(&mut r, true, vec![FlashStep::RemoveProgress]);
            Some(r)
        },
        _ => {
            let r: Vec<FlashStep> = Vec::new();
            assert(r@ =~= Seq::<FlashStep>::empty());
            Some(r)
        },
    }
}

/// The step writes to the card.
pub open spec fn touches_card(s: FlashStep) -> bool {
    s == FlashStep::RunHelper || s == FlashStep::WriteCard || s == FlashStep::RunConfig || s
        == FlashStep::UnmountDisk
}

/// The device is checked before anything is done to the card, and the
/// verdict comes last.
pub proof fn lemma_checked_first(platform: Platform, c: Compression, copy_helper: bool)
    ensures
        ({
            let p = flash_plan(platform, c, copy_helper);
            &&& p.len() > 1
            &&& p[0] == FlashStep::Validate
            &&& p.last() == FlashStep::Judge
            &&& exists|i: int| 0 < i < p.len() && touches_card(#[trigger] p[i])
        }),
{
    let p = flash_plan(platform, c, copy_helper);
    let packed: int = if c != Compression::Plain {
        2
    } else {
        0
    };
    match platform {
        Platform::Windows => {
            assert(p[1 + packed + 1] == FlashStep::WriteCard);
        },
        Platform::MacOs => {
            assert(p[1 + packed + 3] == FlashStep::RunHelper);
        },
        _ => {
            let copied: int = if copy_helper {
                1
            } else {
                0
            };
            assert(p[1 + packed + 3 + copied] == FlashStep::RunHelper);
        },
    }
}

/// An image that was decompressed is removed again behind the write, unless
/// it is a gzip image on macOS.
pub proof fn lemma_image_removed(platform: Platform, c: Compression, copy_helper: bool)
    requires
        c != Compression::Plain,
        platform != Platform::MacOs || c == Compression::Xz,
    ensures
        exists|i: int, j: int|
            0 <= i < j < flash_plan(platform, c, copy_helper).len() && #[trigger] flash_plan(
                platform,
                c,
                copy_helper,
            )[i] == FlashStep::Decompress && #[trigger] flash_plan(platform, c, copy_helper)[j]
                == FlashStep::RemoveImage,
{
    let p = flash_plan(platform, c, copy_helper);
    assert(p[2] == FlashStep::Decompress);
    let j: int = match platform {
        Platform::Windows => 6,
        Platform::MacOs => 10,
        _ => if copy_helper {
            12
        } else {
            10
        },
    };
    assert(p[j] == FlashStep::RemoveImage);
}

} // verus!
