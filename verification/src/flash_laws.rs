//! What every flash run does, in which order, and how it is checked and shown.

use crate::flash::{
    after_failure, compression, device_fault, flash_plan, lemma_progress_read, shown_as, update_in,
    CardSpeed, Compression, FlashStep, Platform, UpdateView,
};
use crate::text::{
    all_digits, decimal, ends, is_digit, is_white, lemma_trimmed_already, number_in, starts, strip_all, trimmed,
};
use crate::text_laws::{lemma_parts, lemma_strip_all, lemma_trimmed};
use vstd::prelude::*;

verus! {

// ---------------------------------------------------------------------------
// The order of the steps
// ---------------------------------------------------------------------------

/// The step occurs once, at `i`.
pub open spec fn once_at(p: Seq<FlashStep>, s: FlashStep, i: int) -> bool {
    &&& 0 <= i < p.len()
    &&& p[i] == s
    &&& forall|j: int| 0 <= j < p.len() && j != i ==> #[trigger] p[j] != s
}

/// Both steps occur once, the first before the second.
pub open spec fn ahead(p: Seq<FlashStep>, a: FlashStep, b: FlashStep) -> bool {
    exists|i: int, j: int| #[trigger] once_at(p, a, i) && #[trigger] once_at(p, b, j) && i < j
}

pub open spec fn never(p: Seq<FlashStep>, s: FlashStep) -> bool {
    forall|j: int| 0 <= j < p.len() ==> #[trigger] p[j] != s
}

/// The step that writes the image to the card.
pub open spec fn writing(platform: Platform) -> FlashStep {
    if platform == Platform::Windows {
        FlashStep::WriteCard
    } else {
        FlashStep::RunHelper
    }
}

proof fn lemma_once(p: Seq<FlashStep>, s: FlashStep, i: int)
    requires
        0 <= i < p.len(),
        p[i] == s,
        forall|j: int| 0 <= j < p.len() && j != i ==> #[trigger] p[j] != s,
    ensures
        once_at(p, s, i),
{
}

/// Where the steps stand in each plan.
spec fn place(platform: Platform, c: Compression, copy_helper: bool, s: FlashStep) -> int {
    let k: int = if c != Compression::Plain {
        2
    } else {
        0
    };
    let r: int = if c != Compression::Plain {
        1
    } else {
        0
    };
    let h: int = if copy_helper {
        1
    } else {
        0
    };
    match platform {
        Platform::Windows => match s {
            FlashStep::Validate => 0,
            FlashStep::CheckSpace => if k > 0 { 1 } else { -1 },
            FlashStep::Decompress => if k > 0 { 2 } else { -1 },
            FlashStep::CreateProgress => 1 + k,
            FlashStep::WriteCard => 2 + k,
            FlashStep::StopPolling => 3 + k,
            FlashStep::RemoveImage => if k > 0 { 6 } else { -1 },
            FlashStep::WriteScript => 4 + k + r,
            FlashStep::RunConfig => 5 + k + r,
            FlashStep::RemoveScript => 6 + k + r,
            FlashStep::RemoveProgress => 7 + k + r,
            FlashStep::Judge => 8 + k + r,
            _ => -1,
        },
        Platform::MacOs => match s {
            FlashStep::Validate => 0,
            FlashStep::CheckSpace => if k > 0 { 1 } else { -1 },
            FlashStep::Decompress => if k > 0 { 2 } else { -1 },
            FlashStep::UnmountDisk => 1 + k,
            FlashStep::WriteScript => 2 + k,
            FlashStep::CreateProgress => 3 + k,
            FlashStep::RunHelper => 4 + k,
            FlashStep::StopPolling => 5 + k,
            FlashStep::RemoveScript => 6 + k,
            FlashStep::RemoveProgress => 7 + k,
            FlashStep::RemoveImage => if c == Compression::Xz { 10 } else { -1 },
            FlashStep::KeepLog => if c == Compression::Xz { 11 } else { 8 + k },
            FlashStep::Judge => if c == Compression::Xz { 12 } else { 9 + k },
            _ => -1,
        },
        _ => match s {
            FlashStep::Validate => 0,
            FlashStep::CheckSpace => if k > 0 { 1 } else { -1 },
            FlashStep::Decompress => if k > 0 { 2 } else { -1 },
            FlashStep::WriteScript => 1 + k,
            FlashStep::CreateProgress => 2 + k,
            FlashStep::LocateHelper => 3 + k,
            FlashStep::StageHelper => if copy_helper { 4 + k } else { -1 },
            FlashStep::RunHelper => 4 + k + h,
            FlashStep::StopPolling => 5 + k + h,
            FlashStep::RemoveScript => 6 + k + h,
            FlashStep::RemoveProgress => 7 + k + h,
            FlashStep::RemoveHelper => if copy_helper { 8 + k + h } else { -1 },
            FlashStep::RemoveImage => if k > 0 { 8 + k + 2 * h } else { -1 },
            FlashStep::Judge => 8 + k + 2 * h + r,
            _ => -1,
        },
    }
}

proof fn lemma_place(platform: Platform, c: Compression, copy_helper: bool, s: FlashStep)
    ensures
        ({
            let p = flash_plan(platform, c, copy_helper);
            let i = place(platform, c, copy_helper, s);
            if i >= 0 {
                once_at(p, s, i)
            } else {
                never(p, s)
            }
        }),
{
    let p = flash_plan(platform, c, copy_helper);
    assert forall|j: int| 0 <= j < p.len() implies place(platform, c, copy_helper, #[trigger] p[j])
        == j by {
        lemma_step_place(platform, c, copy_helper, j);
    }
    let i = place(platform, c, copy_helper, s);
    if i >= 0 {
        assert(i < p.len() && p[i] == s);
    }
}

#[verifier::rlimit(40)]
proof fn lemma_step_place(platform: Platform, c: Compression, copy_helper: bool, j: int)
    requires
        0 <= j < flash_plan(platform, c, copy_helper).len(),
    ensures
        place(platform, c, copy_helper, flash_plan(platform, c, copy_helper)[j]) == j,
{
    assert(j == 0 || j == 1 || j == 2 || j == 3 || j == 4 || j == 5 || j == 6 || j == 7 || j == 8 || j
        == 9 || j == 10 || j == 11 || j == 12 || j == 13);
}

proof fn lemma_ahead(
    platform: Platform,
    c: Compression,
    copy_helper: bool,
    a: FlashStep,
    b: FlashStep,
)
    requires
        0 <= place(platform, c, copy_helper, a) < place(platform, c, copy_helper, b),
    ensures
        ahead(flash_plan(platform, c, copy_helper), a, b),
{
    lemma_place(platform, c, copy_helper, a);
    lemma_place(platform, c, copy_helper, b);
}

/// The boot partition is set up once in every run: on Windows by a step of
/// its own, behind the writing of the card and of the script; elsewhere by
/// the helper, behind the writing of the script.
pub proof fn lemma_boot_set_up(platform: Platform, c: Compression, copy_helper: bool)
    ensures
        ({
            let p = flash_plan(platform, c, copy_helper);
            if platform == Platform::Windows {
                &&& ahead(p, FlashStep::WriteCard, FlashStep::RunConfig)
                &&& ahead(p, FlashStep::WriteScript, FlashStep::RunConfig)
                &&& ahead(p, FlashStep::RunConfig, FlashStep::RemoveScript)
                &&& ahead(p, FlashStep::RunConfig, FlashStep::Judge)
                &&& never(p, FlashStep::RunHelper)
            } else {
                &&& ahead(p, FlashStep::WriteScript, FlashStep::RunHelper)
                &&& ahead(p, FlashStep::RunHelper, FlashStep::RemoveScript)
                &&& ahead(p, FlashStep::RunHelper, FlashStep::Judge)
                &&& never(p, FlashStep::WriteCard)
                &&& never(p, FlashStep::RunConfig)
            }
        }),
{
    if platform == Platform::Windows {
        lemma_ahead(platform, c, copy_helper, FlashStep::WriteCard, FlashStep::RunConfig);
        lemma_ahead(platform, c, copy_helper, FlashStep::WriteScript, FlashStep::RunConfig);
        lemma_ahead(platform, c, copy_helper, FlashStep::RunConfig, FlashStep::RemoveScript);
        lemma_ahead(platform, c, copy_helper, FlashStep::RunConfig, FlashStep::Judge);
        lemma_place(platform, c, copy_helper, FlashStep::RunHelper);
    } else {
        lemma_ahead(platform, c, copy_helper, FlashStep::WriteScript, FlashStep::RunHelper);
        lemma_ahead(platform, c, copy_helper, FlashStep::RunHelper, FlashStep::RemoveScript);
        lemma_ahead(platform, c, copy_helper, FlashStep::RunHelper, FlashStep::Judge);
        lemma_place(platform, c, copy_helper, FlashStep::WriteCard);
        lemma_place(platform, c, copy_helper, FlashStep::RunConfig);
    }
}

/// A packed image is unpacked before it is written, once the device is known
/// to be good and the room to be there; another is written as it is. What was
/// unpacked is removed behind the writing, except that on macOS only what
/// came out of an xz file is.
pub proof fn lemma_unpacked_first(platform: Platform, c: Compression, copy_helper: bool)
    ensures
        ({
            let p = flash_plan(platform, c, copy_helper);
            if c == Compression::Plain {
                &&& never(p, FlashStep::CheckSpace)
                &&& never(p, FlashStep::Decompress)
                &&& never(p, FlashStep::RemoveImage)
                &&& ahead(p, FlashStep::Validate, writing(platform))
            } else {
                &&& ahead(p, FlashStep::Validate, FlashStep::CheckSpace)
                &&& ahead(p, FlashStep::CheckSpace, FlashStep::Decompress)
                &&& ahead(p, FlashStep::Decompress, writing(platform))
                &&& if platform == Platform::MacOs && c == Compression::Gz {
                    never(p, FlashStep::RemoveImage)
                } else {
                    ahead(p, writing(platform), FlashStep::RemoveImage)
                }
            }
        }),
{
    let w = writing(platform);
    if c == Compression::Plain {
        lemma_place(platform, c, copy_helper, FlashStep::CheckSpace);
        lemma_place(platform, c, copy_helper, FlashStep::Decompress);
        lemma_place(platform, c, copy_helper, FlashStep::RemoveImage);
        lemma_ahead(platform, c, copy_helper, FlashStep::Validate, w);
    } else {
        lemma_ahead(platform, c, copy_helper, FlashStep::Validate, FlashStep::CheckSpace);
        lemma_ahead(platform, c, copy_helper, FlashStep::CheckSpace, FlashStep::Decompress);
        lemma_ahead(platform, c, copy_helper, FlashStep::Decompress, w);
        if platform == Platform::MacOs && c == Compression::Gz {
            lemma_place(platform, c, copy_helper, FlashStep::RemoveImage);
        } else {
            lemma_ahead(platform, c, copy_helper, w, FlashStep::RemoveImage);
        }
    }
}

/// Progress is watched while the card is written, and its file is removed.
/// The result is judged last.
pub proof fn lemma_progress_watched(platform: Platform, c: Compression, copy_helper: bool)
    ensures
        ({
            let p = flash_plan(platform, c, copy_helper);
            &&& ahead(p, FlashStep::CreateProgress, writing(platform))
            &&& ahead(p, writing(platform), FlashStep::StopPolling)
            &&& ahead(p, FlashStep::StopPolling, FlashStep::RemoveProgress)
            &&& ahead(p, FlashStep::RemoveProgress, FlashStep::Judge)
            &&& once_at(p, FlashStep::Validate, 0)
            &&& once_at(p, FlashStep::Judge, p.len() - 1)
        }),
{
    let w = writing(platform);
    lemma_ahead(platform, c, copy_helper, FlashStep::CreateProgress, w);
    lemma_ahead(platform, c, copy_helper, w, FlashStep::StopPolling);
    lemma_ahead(platform, c, copy_helper, FlashStep::StopPolling, FlashStep::RemoveProgress);
    lemma_ahead(platform, c, copy_helper, FlashStep::RemoveProgress, FlashStep::Judge);
    lemma_place(platform, c, copy_helper, FlashStep::Validate);
    lemma_place(platform, c, copy_helper, FlashStep::Judge);
}

/// On macOS the disk is unmounted before the helper runs, and its log is
/// kept. Elsewhere but on Windows the helper is looked for first; a copy of
/// it is made before it runs and removed behind it, if one is needed.
pub proof fn lemma_helper_ready(platform: Platform, c: Compression, copy_helper: bool)
    ensures
        ({
            let p = flash_plan(platform, c, copy_helper);
            let plain = platform == Platform::Linux || platform == Platform::Other;
            &&& if platform == Platform::MacOs {
                ahead(p, FlashStep::UnmountDisk, FlashStep::RunHelper) && ahead(
                    p,
                    FlashStep::RunHelper,
                    FlashStep::KeepLog,
                ) && ahead(p, FlashStep::KeepLog, FlashStep::Judge)
            } else {
                never(p, FlashStep::UnmountDisk) && never(p, FlashStep::KeepLog)
            }
            &&& if plain {
                ahead(p, FlashStep::LocateHelper, FlashStep::RunHelper)
            } else {
                never(p, FlashStep::LocateHelper)
            }
            &&& if plain && copy_helper {
                ahead(p, FlashStep::LocateHelper, FlashStep::StageHelper) && ahead(
                    p,
                    FlashStep::StageHelper,
                    FlashStep::RunHelper,
                ) && ahead(p, FlashStep::RunHelper, FlashStep::RemoveHelper)
            } else {
                never(p, FlashStep::StageHelper) && never(p, FlashStep::RemoveHelper)
            }
        }),
{
    if platform == Platform::MacOs {
        lemma_ahead(platform, c, copy_helper, FlashStep::UnmountDisk, FlashStep::RunHelper);
        lemma_ahead(platform, c, copy_helper, FlashStep::RunHelper, FlashStep::KeepLog);
        lemma_ahead(platform, c, copy_helper, FlashStep::KeepLog, FlashStep::Judge);
    } else {
        lemma_place(platform, c, copy_helper, FlashStep::UnmountDisk);
        lemma_place(platform, c, copy_helper, FlashStep::KeepLog);
    }
    if platform == Platform::Linux || platform == Platform::Other {
        lemma_ahead(platform, c, copy_helper, FlashStep::LocateHelper, FlashStep::RunHelper);
        if copy_helper {
            lemma_ahead(platform, c, copy_helper, FlashStep::LocateHelper, FlashStep::StageHelper);
            lemma_ahead(platform, c, copy_helper, FlashStep::StageHelper, FlashStep::RunHelper);
            lemma_ahead(platform, c, copy_helper, FlashStep::RunHelper, FlashStep::RemoveHelper);
        }
    } else {
        lemma_place(platform, c, copy_helper, FlashStep::LocateHelper);
    }
    lemma_place(platform, c, copy_helper, FlashStep::StageHelper);
    lemma_place(platform, c, copy_helper, FlashStep::RemoveHelper);
}

/// The turn that each step has: on Windows the card is written and then set up
/// by a script; elsewhere the script is there before the helper runs.
pub open spec fn turn(platform: Platform, s: FlashStep) -> int {
    match s {
        FlashStep::Validate => 0,
        FlashStep::CheckSpace => 1,
        FlashStep::Decompress => 2,
        FlashStep::UnmountDisk => 3,
        FlashStep::WriteScript => if platform == Platform::Windows {
            13
        } else {
            4
        },
        FlashStep::CreateProgress => 5,
        FlashStep::LocateHelper => 6,
        FlashStep::StageHelper => 7,
        FlashStep::RunHelper => 8,
        FlashStep::WriteCard => 9,
        FlashStep::StopPolling => 10,
        FlashStep::RemoveImage => if platform == Platform::Windows {
            11
        } else {
            18
        },
        FlashStep::RunConfig => 14,
        FlashStep::RemoveScript => 15,
        FlashStep::RemoveProgress => 16,
        FlashStep::RemoveHelper => 17,
        FlashStep::KeepLog => 19,
        FlashStep::Judge => 20,
    }
}

#[verifier::rlimit(40)]
proof fn lemma_turn(platform: Platform, c: Compression, copy_helper: bool, a: FlashStep, b: FlashStep)
    requires
        0 <= place(platform, c, copy_helper, a) < place(platform, c, copy_helper, b),
    ensures
        turn(platform, a) < turn(platform, b),
{
}

/// The steps of a plan are in turn.
pub proof fn lemma_in_turn(platform: Platform, c: Compression, copy_helper: bool)
    ensures
        ({
            let p = flash_plan(platform, c, copy_helper);
            forall|i: int, j: int|
                0 <= i < j < p.len() ==> turn(platform, #[trigger] p[i]) < turn(
                    platform,
                    #[trigger] p[j],
                )
        }),
{
    let p = flash_plan(platform, c, copy_helper);
    assert forall|i: int, j: int| 0 <= i < j < p.len() implies turn(platform, #[trigger] p[i])
        < turn(platform, #[trigger] p[j]) by {
        lemma_step_place(platform, c, copy_helper, i);
        lemma_step_place(platform, c, copy_helper, j);
        lemma_turn(platform, c, copy_helper, p[i], p[j]);
    }
}

/// The step only tidies up, or only helps: a run goes on without it.
pub open spec fn dispensable(s: FlashStep) -> bool {
    s == FlashStep::UnmountDisk || s == FlashStep::CreateProgress || s == FlashStep::StopPolling || s
        == FlashStep::RemoveScript || s == FlashStep::RemoveProgress || s
        == FlashStep::RemoveHelper || s == FlashStep::RemoveImage || s == FlashStep::KeepLog
}

/// A run stops at the first step that fails, unless it can do without that
/// step. Where writing the card fails, polling stops and the progress file
/// goes, and so does what was unpacked; nothing more is done to the card.
pub proof fn lemma_stops(s: FlashStep, c: Compression)
    ensures
        after_failure(s, c) is None <==> dispensable(s),
        after_failure(s, c) matches Some(v) ==> {
            &&& s != FlashStep::WriteCard ==> v.len() == 0
            &&& s == FlashStep::WriteCard ==> ahead(
                v,
                FlashStep::StopPolling,
                FlashStep::RemoveProgress,
            )
            &&& s == FlashStep::WriteCard && c != Compression::Plain ==> ahead(
                v,
                FlashStep::StopPolling,
                FlashStep::RemoveImage,
            )
            &&& c == Compression::Plain ==> never(v, FlashStep::RemoveImage)
            &&& forall|i: int| 0 <= i < v.len() ==> dispensable(#[trigger] v[i])
        },
{
    if s == FlashStep::WriteCard {
        let v = after_failure(s, c)->0;
        let n = v.len() - 1;
        assert(v[0] == FlashStep::StopPolling);
        assert(v[n] == FlashStep::RemoveProgress);
        lemma_once(v, FlashStep::StopPolling, 0);
        lemma_once(v, FlashStep::RemoveProgress, n);
        if c != Compression::Plain {
            assert(v[1] == FlashStep::RemoveImage);
            lemma_once(v, FlashStep::RemoveImage, 1);
        }
    }
}

// ---------------------------------------------------------------------------
// The device
// ---------------------------------------------------------------------------

/// On Linux a device is taken exactly if it is a path below "/dev/" or
/// "\\.\", is there, and says of itself that it is removable.
pub proof fn lemma_device_linux(device: Seq<char>, there: bool, removable: Seq<char>)
    ensures
        device_fault(Platform::Linux, device, there, removable) is None <==> device.len() > 0 && (
        (exists|b: Seq<char>| device == #[trigger] ("/dev/"@ + b)) || (exists|b: Seq<char>|
            device == #[trigger] ("\\\\.\\"@ + b))) && there && trimmed(removable) == seq!['1'],
        device_fault(Platform::MacOs, device, there, removable) is None <==> device.len() > 0 && (
        (exists|b: Seq<char>| device == #[trigger] ("/dev/"@ + b)) || (exists|b: Seq<char>|
            device == #[trigger] ("\\\\.\\"@ + b))) && there,
{
    reveal_strlit("1");
    assert("1"@ =~= seq!['1']);
    lemma_parts(device, "/dev/"@);
    lemma_parts(device, "\\\\.\\"@);
}

proof fn lemma_drive(n: Seq<char>)
    requires
        !(exists|b: Seq<char>| n == #[trigger] ("\\\\.\\PhysicalDrive"@ + b)),
    ensures
        ({
            let device = "\\\\.\\PhysicalDrive"@ + n;
            &&& device.len() > 0
            &&& starts(device, "\\\\.\\"@)
            &&& starts(device, "\\\\.\\PhysicalDrive"@)
            &&& strip_all(device, "\\\\.\\PhysicalDrive"@) == n
        }),
{
    let device = "\\\\.\\PhysicalDrive"@ + n;
    reveal_strlit("\\\\.\\PhysicalDrive");
    reveal_strlit("\\\\.\\");
    let rest = device.skip(4);
    assert(device =~= "\\\\.\\"@ + rest);
    lemma_parts(device, "\\\\.\\"@);
    lemma_parts(device, "\\\\.\\PhysicalDrive"@);
    lemma_strip_all(n, "\\\\.\\PhysicalDrive"@);
}

/// On Windows a physical drive is taken exactly if a number follows its name,
/// whether or not it is there.
pub proof fn lemma_device_windows(n: Seq<char>, there: bool, removable: Seq<char>)
    requires
        !(exists|b: Seq<char>| n == #[trigger] ("\\\\.\\PhysicalDrive"@ + b)),
    ensures
        ({
            let device = "\\\\.\\PhysicalDrive"@ + n;
            let number = n.len() > 0 && forall|i: int| 0 <= i < n.len() ==> '0' <= #[trigger] n[i] <= '9';
            device_fault(Platform::Windows, device, there, removable) == if number {
                None
            } else {
                Some("Invalid disk number in: "@ + device)
            }
        }),
{
    lemma_drive(n);
    assert(all_digits(n) <==> forall|i: int| 0 <= i < n.len() ==> '0' <= #[trigger] n[i] <= '9') by {
        if all_digits(n) {
            assert forall|i: int| 0 <= i < n.len() implies '0' <= #[trigger] n[i] <= '9' by {
                assert(is_digit(n[i]));
            }
        }
        if forall|i: int| 0 <= i < n.len() ==> '0' <= #[trigger] n[i] <= '9' {
            assert forall|i: int| 0 <= i < n.len() implies is_digit(#[trigger] n[i]) by {}
        }
    }
}

/// What a refused device is told.
pub proof fn lemma_device_refused(
    platform: Platform,
    device: Seq<char>,
    there: bool,
    removable: Seq<char>,
)
    ensures
        device_fault(platform, Seq::empty(), there, removable) == Some("No device specified"@),
        device.len() > 0 && !(exists|b: Seq<char>| device == #[trigger] ("/dev/"@ + b)) && !(exists|
            b: Seq<char>,
        | device == #[trigger] ("\\\\.\\"@ + b)) ==> device_fault(platform, device, there, removable)
            == Some("Invalid device path: "@ + device),
        (platform == Platform::Linux || platform == Platform::MacOs) && !there ==> device_fault(
            platform,
            "/dev/"@ + device,
            there,
            removable,
        ) == Some("Device not found. Was the SD card removed?"@),
        platform == Platform::Linux && there && trimmed(removable) != seq!['1'] ==> device_fault(
            platform,
            "/dev/"@ + device,
            there,
            removable,
        ) == Some("/dev/"@ + device + " is not a removable device"@),
        platform == Platform::Windows ==> device_fault(platform, "/dev/"@ + device, there, removable)
            == Some("Invalid device path: "@ + ("/dev/"@ + device)),
{
    reveal_strlit("1");
    reveal_strlit("/dev/");
    reveal_strlit("\\\\.\\PhysicalDrive");
    assert("1"@ =~= seq!['1']);
    lemma_parts(device, "/dev/"@);
    lemma_parts(device, "\\\\.\\"@);
    let d = "/dev/"@ + device;
    lemma_parts(d, "/dev/"@);
    assert(d[0] == '/');
    if starts(d, "\\\\.\\PhysicalDrive"@) {
        assert(d.subrange(0, "\\\\.\\PhysicalDrive"@.len() as int)[0] == d[0]);
    }
}

// ---------------------------------------------------------------------------
// Packing
// ---------------------------------------------------------------------------

/// The ending of a file says how it is packed.
pub proof fn lemma_packing(path: Seq<char>)
    ensures
        compression(path + ".xz"@) == Compression::Xz,
        compression(path + ".gz"@) == Compression::Gz,
        compression(path) == Compression::Xz ==> exists|a: Seq<char>| path == #[trigger] (a + ".xz"@),
        compression(path) == Compression::Gz ==> exists|a: Seq<char>| path == #[trigger] (a + ".gz"@),
{
    reveal_strlit(".xz");
    reveal_strlit(".gz");
    let g = path + ".gz"@;
    lemma_parts(path + ".xz"@, ".xz"@);
    lemma_parts(g, ".gz"@);
    lemma_parts(path, ".xz"@);
    lemma_parts(path, ".gz"@);
    if ends(g, ".xz"@) {
        let n = g.len() as int;
        assert(g.subrange(n - 3, n)[1] == g[n - 2]);
        assert(g[n - 2] == 'g');
    }
}

// ---------------------------------------------------------------------------
// Progress
// ---------------------------------------------------------------------------

/// White space around what is in the progress file does not matter.
pub proof fn lemma_update_trimmed(before: Seq<char>, c: Seq<char>, after: Seq<char>)
    requires
        forall|i: int| 0 <= i < before.len() ==> is_white(#[trigger] before[i]),
        forall|i: int| 0 <= i < after.len() ==> is_white(#[trigger] after[i]),
        c.len() > 0,
        !is_white(c[0]),
        !is_white(c.last()),
    ensures
        update_in(before + c + after) == update_in(c),
{
    lemma_trimmed(before, c, after);
    lemma_trimmed_already(c);
}

proof fn lemma_not_start(c: Seq<char>, p: Seq<char>, k: int)
    requires
        0 <= k < p.len(),
        k < c.len(),
        c[k] != p[k],
    ensures
        !starts(c, p),
{
    if starts(c, p) {
        assert(c.subrange(0, p.len() as int)[k] == c[k]);
    }
}

proof fn lemma_after_prefix(p: Seq<char>, x: Seq<char>)
    requires
        p.len() > 0,
        !is_white(p[0]),
        !is_white(p.last()),
        x.len() > 0 ==> !is_white(x.last()),
        !(exists|b: Seq<char>| x == #[trigger] (p + b)),
    ensures
        trimmed(p + x) == p + x,
        starts(p + x, p),
        strip_all(p + x, p) == x,
{
    let c = p + x;
    assert(c[0] == p[0]);
    assert(x.len() > 0 ==> c.last() == x.last());
    assert(x.len() == 0 ==> c.last() == p.last());
    lemma_trimmed_already(c);
    lemma_parts(c, p);
    lemma_strip_all(x, p);
}

/// While the card is verified, what follows the word is told, whatever it is.
pub proof fn lemma_verifying(x: Seq<char>, size: int)
    requires
        x.len() > 0 ==> !is_white(x.last()),
        !(exists|b: Seq<char>| x == #[trigger] ("STAGE:verifying:"@ + b)),
    ensures
        update_in("STAGE:verifying:"@ + x) == UpdateView::Verifying(x),
        shown_as(update_in("STAGE:verifying:"@ + x), size) == Some(("verifying"@, 90int)),
{
    reveal_strlit("STAGE:verifying:");
    lemma_after_prefix("STAGE:verifying:"@, x);
}

/// A measured speed is told with its number, or as zero if there is none. A
/// slow card is written with care.
#[verifier::rlimit(40)]
pub proof fn lemma_speed(x: Seq<char>, size: int)
    requires
        x.len() > 0 ==> !is_white(x.last()),
        forall|b: Seq<char>| x != #[trigger] ("STAGE:speed_slow:"@ + b),
        forall|b: Seq<char>| x != #[trigger] ("STAGE:speed_medium:"@ + b),
        forall|b: Seq<char>| x != #[trigger] ("STAGE:speed_ok:"@ + b),
    ensures
        ({
            let n = match number_in(x, 0xffff_ffff) {
                Some(n) => n as int,
                None => 0,
            };
            let slow = update_in("STAGE:speed_slow:"@ + x);
            let medium = update_in("STAGE:speed_medium:"@ + x);
            let fast = update_in("STAGE:speed_ok:"@ + x);
            &&& slow == UpdateView::Speed(CardSpeed::Slow, n)
            &&& medium == UpdateView::Speed(CardSpeed::Medium, n)
            &&& fast == UpdateView::Speed(CardSpeed::Fast, n)
            &&& shown_as(slow, size) == Some(("writing_safe"@, 56int))
            &&& shown_as(medium, size) == Some(("writing"@, 56int))
            &&& shown_as(fast, size) == Some(("writing"@, 56int))
        }),
{
    reveal_strlit("STAGE:verifying:");
    reveal_strlit("STAGE:testing");
    reveal_strlit("STAGE:speed_slow:");
    reveal_strlit("STAGE:speed_medium:");
    reveal_strlit("STAGE:speed_ok:");
    let s = "STAGE:speed_slow:"@ + x;
    let m = "STAGE:speed_medium:"@ + x;
    let f = "STAGE:speed_ok:"@ + x;
    lemma_after_prefix("STAGE:speed_slow:"@, x);
    lemma_after_prefix("STAGE:speed_medium:"@, x);
    lemma_after_prefix("STAGE:speed_ok:"@, x);
    lemma_not_start(s, "STAGE:verifying:"@, 6);
    lemma_not_start(s, "STAGE:testing"@, 6);
    lemma_not_start(m, "STAGE:verifying:"@, 6);
    lemma_not_start(m, "STAGE:testing"@, 6);
    lemma_not_start(m, "STAGE:speed_slow:"@, 12);
    lemma_not_start(f, "STAGE:verifying:"@, 6);
    lemma_not_start(f, "STAGE:testing"@, 6);
    lemma_not_start(f, "STAGE:speed_slow:"@, 12);
    lemma_not_start(f, "STAGE:speed_medium:"@, 12);
}

proof fn lemma_other_stage(d: Seq<char>)
    requires
        d.len() > 6,
        d[6] == 'd',
    ensures
        !starts(d, "STAGE:verifying:"@),
        !starts(d, "STAGE:testing"@),
        !starts(d, "STAGE:speed_slow:"@),
        !starts(d, "STAGE:speed_medium:"@),
        !starts(d, "STAGE:speed_ok:"@),
{
    reveal_strlit("STAGE:verifying:");
    reveal_strlit("STAGE:testing");
    reveal_strlit("STAGE:speed_slow:");
    reveal_strlit("STAGE:speed_medium:");
    reveal_strlit("STAGE:speed_ok:");
    lemma_not_start(d, "STAGE:verifying:"@, 6);
    lemma_not_start(d, "STAGE:testing"@, 6);
    lemma_not_start(d, "STAGE:speed_slow:"@, 6);
    lemma_not_start(d, "STAGE:speed_medium:"@, 6);
    lemma_not_start(d, "STAGE:speed_ok:"@, 6);
}

/// Testing is told by how the text starts.
pub proof fn lemma_testing(x: Seq<char>, size: int)
    requires
        x.len() > 0 ==> !is_white(x.last()),
    ensures
        update_in("STAGE:testing"@ + x) == UpdateView::Testing,
        shown_as(update_in("STAGE:testing"@ + x), size) == Some(("testing_sd"@, 55int)),
{
    let t = "STAGE:testing"@ + x;
    reveal_strlit("STAGE:testing");
    assert(t.last() == if x.len() > 0 {
        x.last()
    } else {
        'g'
    });
    lemma_trimmed_already(t);
    assert(starts(t, "STAGE:testing"@)) by {
        assert(t.subrange(0, 13) =~= "STAGE:testing"@);
    }
    assert(!starts(t, "STAGE:verifying:"@)) by {
        reveal_strlit("STAGE:verifying:");
        lemma_not_start(t, "STAGE:verifying:"@, 6);
    }
}

/// So is the end.
pub proof fn lemma_ending(x: Seq<char>, size: int)
    requires
        x.len() > 0 ==> !is_white(x.last()),
    ensures
        update_in("STAGE:done"@ + x) == UpdateView::Finalizing,
        shown_as(update_in("STAGE:done"@ + x), size) == Some(("finalizing"@, 100int)),
{
    let d = "STAGE:done"@ + x;
    reveal_strlit("STAGE:done");
    assert(d.last() == if x.len() > 0 {
        x.last()
    } else {
        'e'
    });
    lemma_trimmed_already(d);
    assert(starts(d, "STAGE:done"@)) by {
        assert(d.subrange(0, 10) =~= "STAGE:done"@);
    }
    assert(d[6] == 'd');
    lemma_other_stage(d);
}

/// A failed check is told with what was found.
pub proof fn lemma_check_failed(x: Seq<char>, size: int)
    requires
        x.len() > 0 ==> !is_white(x.last()),
        !(exists|b: Seq<char>| x == #[trigger] ("VERIFY_FAILED:"@ + b)),
    ensures
        update_in("VERIFY_FAILED:"@ + x) == UpdateView::VerifyFailed(x),
        shown_as(update_in("VERIFY_FAILED:"@ + x), size) == Some(("verify_failed"@, 0int)),
{
    let v = "VERIFY_FAILED:"@ + x;
    reveal_strlit("VERIFY_FAILED:");
    lemma_after_prefix("VERIFY_FAILED:"@, x);
    assert(v[0] == 'V');
    assert(starts(v, "VERIFY_FAILED"@)) by {
        reveal_strlit("VERIFY_FAILED");
        assert(v.subrange(0, 13) =~= "VERIFY_FAILED"@);
    }
    lemma_no_stage(v);
}

proof fn lemma_no_stage(v: Seq<char>)
    requires
        v.len() > 0,
        v[0] != 'S',
    ensures
        !starts(v, "STAGE:verifying:"@),
        !starts(v, "STAGE:testing"@),
        !starts(v, "STAGE:speed_slow:"@),
        !starts(v, "STAGE:speed_medium:"@),
        !starts(v, "STAGE:speed_ok:"@),
        !starts(v, "STAGE:done"@),
{
    reveal_strlit("STAGE:verifying:");
    reveal_strlit("STAGE:testing");
    reveal_strlit("STAGE:speed_slow:");
    reveal_strlit("STAGE:speed_medium:");
    reveal_strlit("STAGE:speed_ok:");
    reveal_strlit("STAGE:done");
    lemma_not_start(v, "STAGE:verifying:"@, 0);
    lemma_not_start(v, "STAGE:testing"@, 0);
    lemma_not_start(v, "STAGE:speed_slow:"@, 0);
    lemma_not_start(v, "STAGE:speed_medium:"@, 0);
    lemma_not_start(v, "STAGE:speed_ok:"@, 0);
    lemma_not_start(v, "STAGE:done"@, 0);
}

/// A number is the count of the bytes written, and is shown once the size of
/// the image is known; what is neither a number nor a stage is passed over.
pub proof fn lemma_bytes_written(n: u64, other: Seq<char>, size: int)
    requires
        other.len() > 0,
        other[0] != 'S' && other[0] != 'V' && other[0] != '+' && !is_white(other[0]),
        !is_white(other.last()),
        !all_digits(other),
    ensures
        update_in(decimal(n as nat)) == UpdateView::Written(n as int),
        shown_as(update_in(decimal(n as nat)), size) == (if size > 0 {
            Some(("writing"@, 55int))
        } else {
            None
        }),
        update_in(other) == UpdateView::Nothing,
        shown_as(update_in(other), size) is None,
{
    lemma_progress_read(n, 0);
    reveal_strlit("VERIFY_FAILED");
    lemma_trimmed_already(other);
    lemma_no_stage(other);
    lemma_not_start(other, "VERIFY_FAILED"@, 0);
}

} // verus!
