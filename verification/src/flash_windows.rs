//! Flashing on Windows: finding the disk, the volumes to lock, what the
//! system's error codes mean, and the script that sets up the boot partition.

use crate::digest::sha256_of;
use crate::flashwrite::ImageReader;
use crate::text::{
    chars_of, decimal, decimal_of, hex_bytes, is_digit, join, number_in, occurs, occurs_at,
    parse_number, position_of, replace, replaced, same, string_of, to_uppercase, trim, trimmed,
    upper_form,
};
use vstd::arithmetic::power2::{lemma_pow2_unfold, lemma2_to64, pow2};
use vstd::prelude::*;

verus! {

pub const ERROR_ACCESS_DENIED: u32 = 5;

pub const ERROR_WRITE_PROTECT: u32 = 19;

pub const ERROR_SHARING_VIOLATION: u32 = 32;

// ---------------------------------------------------------------------------
// Names
// ---------------------------------------------------------------------------

/// The UTF-16 code units of a character.
pub open spec fn utf16_char(c: char) -> Seq<u16> {
    if c as u32 <= 0xFFFF {
        seq![(c as u32) as u16]
    } else {
        let n = c as u32 - 0x10000;
        seq![(0xD800 + n / 0x400) as u16, (0xDC00 + n % 0x400) as u16]
    }
}

/// The UTF-16 code units of a text.
pub open spec fn utf16(s: Seq<char>) -> Seq<u16>
    decreases s.len(),
{
    if s.len() == 0 {
        Seq::empty()
    } else {
        utf16(s.drop_last()) + utf16_char(s.last())
    }
}

/// A text in UTF-16, ended by a zero.
pub fn wide(s: &str) -> (r: Vec<u16>)
    ensures
        r@ == utf16(s@).push(0),
{
    let a = chars_of(s);
    let mut r: Vec<u16> = Vec::new();
    let mut i: usize = 0;
    assert(r@ =~= utf16(a@.take(0)));
    while i < a.len()
        invariant
            i <= a@.len(),
            r@ == utf16(a@.take(i as int)),
        decreases a@.len() - i,
    {
        let c = a[i] as u32;
        proof {
            vstd::utf8::char_is_scalar(a@[i as int]);
        }
        let ghost before = r@;
        if c <= 0xFFFF {
            r.push(c as u16);
        } else {
            let n = c - 0x10000;
            r.push((0xD800 + n / 0x400) as u16);
            r.push((0xDC00 + n % 0x400) as u16);
        }
        assert(r@ =~= before + utf16_char(a@[i as int]));
        assert(a@.take(i + 1).drop_last() =~= a@.take(i as int));
        i += 1;
    }
    assert(a@.take(i as int) =~= s@);
    r.push(0);
    r
}

/// Where `n` occurs first in `s`, from `i` on.
pub open spec fn first_at(s: Seq<char>, n: Seq<char>, i: int) -> Option<int>
    decreases s.len() + 1 - i,
{
    if i > s.len() {
        None
    } else if occurs_at(s, n, i) {
        Some(i)
    } else {
        first_at(s, n, i + 1)
    }
}

proof fn lemma_first_at(s: Seq<char>, n: Seq<char>, from: int, i: int)
    requires
        0 <= from <= i <= s.len(),
        occurs_at(s, n, i),
        forall|j: int| from <= j < i ==> !occurs_at(s, n, j),
    ensures
        first_at(s, n, from) == Some(i),
    decreases i - from,
{
    if from < i {
        lemma_first_at(s, n, from + 1, i);
    }
}

proof fn lemma_first_none(s: Seq<char>, n: Seq<char>, from: int)
    requires
        0 <= from,
        !occurs(s, n),
    ensures
        first_at(s, n, from) is None,
    decreases s.len() + 1 - from,
{
    if from <= s.len() {
        lemma_first_none(s, n, from + 1);
    }
}

/// The digits at the start of a text.
pub open spec fn leading_digits(s: Seq<char>) -> Seq<char>
    decreases s.len(),
{
    if s.len() > 0 && is_digit(s[0]) {
        seq![s[0]] + leading_digits(s.skip(1))
    } else {
        Seq::empty()
    }
}

/// The disk number in a device path, given the path in capital letters.
pub open spec fn disk_number(upper: Seq<char>, device: Seq<char>) -> Result<u32, Seq<char>> {
    match first_at(upper, "PHYSICALDRIVE"@, 0) {
        None => Err("Not a physical drive path: "@ + device),
        Some(i) => match number_in(
            leading_digits(upper.skip(i + "PHYSICALDRIVE"@.len())),
            u32::MAX as nat,
        ) {
            Some(n) => Ok(n as u32),
            None => Err("No disk number in: "@ + device),
        },
    }
}

fn take_digits(a: &Vec<char>, from: usize) -> (r: String)
    requires
        from <= a@.len(),
    ensures
        r@ == leading_digits(a@.skip(from as int)),
{
    let mut i: usize = from;
    let ghost all = a@.skip(from as int);
    assert(a@.subrange(from as int, from as int) + leading_digits(all) =~= leading_digits(all));
    while i < a.len() && '0' <= a[i] && a[i] <= '9'
        invariant
            from <= i <= a@.len(),
            all == a@.skip(from as int),
            leading_digits(all) == a@.subrange(from as int, i as int) + leading_digits(
                a@.skip(i as int),
            ),
        decreases a@.len() - i,
    {
        assert(a@.skip(i as int)[0] == a@[i as int]);
        assert(a@.skip(i as int).skip(1) =~= a@.skip(i + 1));
        let ghost rest = leading_digits(a@.skip(i + 1));
        assert(a@.subrange(from as int, i as int) + (seq![a@[i as int]] + rest) =~= a@.subrange(
            from as int,
            i + 1,
        ) + rest);
        i += 1;
    }
    assert(leading_digits(a@.skip(i as int)) =~= Seq::<char>::empty());
    assert(a@.subrange(from as int, i as int) + Seq::<char>::empty() =~= a@.subrange(
        from as int,
        i as int,
    ));
    string_of(a, from, i)
}

/// The disk number in a device path, given the path in capital letters.
pub fn disk_number_in(upper: &str, device: &str) -> (r: Result<u32, String>)
    ensures
        match r {
            Ok(n) => disk_number(upper@, device@) == Ok::<u32, Seq<char>>(n),
            Err(e) => disk_number(upper@, device@) == Err::<u32, Seq<char>>(e@),
        },
{
    let u = chars_of(upper);
    let word = chars_of("PHYSICALDRIVE");
    match position_of(&u, &word) {
        None => {
            proof {
                lemma_first_none(upper@, "PHYSICALDRIVE"@, 0);
            }
            Err(join("Not a physical drive path: ", device))
        },
        Some(i) => {
            proof {
                lemma_first_at(upper@, "PHYSICALDRIVE"@, 0, i as int);
            }
            assert(i + word@.len() <= u.len());
            let digits = take_digits(&u, i + word.len());
            match parse_number(digits.as_str(), 0xffff_ffff) {
                Some(n) => Ok(n as u32),
                None => Err(join("No disk number in: ", device)),
            }
        },
    }
}

/// The disk number in a path such as `\\.\PhysicalDrive2`.
pub fn extract_disk_number(device: &str) -> (r: Result<u32, String>)
    ensures
        match r {
            Ok(n) => disk_number(upper_form(device@), device@) == Ok::<u32, Seq<char>>(n),
            Err(e) => disk_number(upper_form(device@), device@) == Err::<u32, Seq<char>>(e@),
        },
{
    let upper = to_uppercase(device);
    disk_number_in(upper.as_str(), device)
}

// ---------------------------------------------------------------------------
// Volumes
// ---------------------------------------------------------------------------

/// The letter of the `i`-th drive.
pub open spec fn drive_letter(i: int) -> char {
    ('A' as int + i) as char
}

/// The letters of the drives up to the `n`-th whose bits are set.
pub open spec fn letters(mask: u32, n: int) -> Seq<char>
    decreases n,
{
    if n <= 0 {
        Seq::empty()
    } else if mask & (1u32 << ((n - 1) as u32)) != 0 {
        letters(mask, n - 1).push(drive_letter(n - 1))
    } else {
        letters(mask, n - 1)
    }
}

/// The letters of the drives in a mask of logical drives, in order.
pub fn drive_letters(mask: u32) -> (r: Vec<char>)
    ensures
        r@ == letters(mask, 26),
{
    let mut r: Vec<char> = Vec::new();
    let mut i: u32 = 0;
    assert(r@ =~= letters(mask, 0));
    while i < 26
        invariant
            i <= 26,
            r@ == letters(mask, i as int),
        decreases 26 - i,
    {
        if mask & (1u32 << i) != 0 {
            r.push((65 + i as u8) as char);
        }
        i += 1;
    }
    r
}

/// How long to wait after the failed attempt number `attempt` to lock a
/// volume, in milliseconds: from a tenth of a second on, twice as long each
/// time. After the eighth there is no other.
pub fn lock_delay(attempt: u32) -> (r: Option<u64>)
    ensures
        r == (if attempt < 7 {
            Some((100 * pow2(attempt as nat)) as u64)
        } else {
            None
        }),
{
    if attempt >= 7 {
        return None;
    }
    proof {
        lemma2_to64();
    }
    let mut delay: u64 = 100;
    let mut i: u32 = 0;
    while i < attempt
        invariant
            i <= attempt < 7,
            delay == 100 * pow2(i as nat),
            pow2(6) == 64,
            delay <= 100 * pow2(6),
        decreases attempt - i,
    {
        proof {
            lemma_pow2_unfold((i + 1) as nat);
            if i + 1 < 6 {
                vstd::arithmetic::power2::lemma_pow2_strictly_increases((i + 1) as nat, 6);
            }
        }
        delay = delay * 2;
        i += 1;
    }
    Some(delay)
}

// ---------------------------------------------------------------------------
// Faults
// ---------------------------------------------------------------------------

/// What a system error means when a device is opened. The first word is a
/// fixed token; the rest is for the log.
pub fn classify_open_error(err: u32, device: &str) -> (r: String)
    ensures
        r@ == (if err == ERROR_ACCESS_DENIED {
            "err:device_busy (access denied opening "@ + device@ + ")"@
        } else if err == ERROR_SHARING_VIOLATION {
            "err:device_busy ("@ + device@ + " in use)"@
        } else if err == ERROR_WRITE_PROTECT {
            "err:write_protected ("@ + device@ + ")"@
        } else {
            "err:open_device ("@ + device@ + " win "@ + decimal(err as nat) + ")"@
        }),
{
    if err == ERROR_ACCESS_DENIED {
        join(join("err:device_busy (access denied opening ", device).as_str(), ")")
    } else if err == ERROR_SHARING_VIOLATION {
        join(join("err:device_busy (", device).as_str(), " in use)")
    } else if err == ERROR_WRITE_PROTECT {
        join(join("err:write_protected (", device).as_str(), ")")
    } else {
        let a = join(join("err:open_device (", device).as_str(), " win ");
        join(join(a.as_str(), decimal_of(err as u64).as_str()).as_str(), ")")
    }
}

/// What a system error means when a device is written to.
pub fn classify_write_error(err: u32) -> (r: String)
    ensures
        r@ == (if err == ERROR_WRITE_PROTECT {
            "err:write_protected (lock switch)"@
        } else if err == ERROR_ACCESS_DENIED {
            "err:device_busy (write access denied)"@
        } else {
            "err:media (write win "@ + decimal(err as nat) + ")"@
        }),
{
    if err == ERROR_WRITE_PROTECT {
        "err:write_protected (lock switch)".to_string()
    } else if err == ERROR_ACCESS_DENIED {
        "err:device_busy (write access denied)".to_string()
    } else {
        join(join("err:media (write win ", decimal_of(err as u64).as_str()).as_str(), ")")
    }
}

/// What is reported when the boot partition could not be set up.
pub fn config_failure(stderr: &str) -> (r: String)
    ensures
        r@ == "Flash failed: "@ + trimmed(stderr@),
{
    join("Flash failed: ", trim(stderr).as_str())
}

/// The verdict on a device that was read back.
pub open spec fn verdict(write_hash: Seq<char>, read: Seq<u8>, total: int) -> Result<(), Seq<char>> {
    if read.len() != total {
        Err(
            "err:media (short read "@ + decimal(read.len()) + " of "@ + decimal(total as nat)
                + " bytes)"@,
        )
    } else if write_hash != hex_bytes(sha256_of(read)@) {
        Err("verify_failed"@)
    } else {
        Ok(())
    }
}

/// Ends the verification.
pub fn conclude(write_hash: &str, reader: ImageReader, total: u64) -> (r: Result<(), String>)
    requires
        reader.wf(),
        reader.total() == total,
    ensures
        match r {
            Ok(_) => verdict(write_hash@, reader@, total as int) is Ok,
            Err(e) => verdict(write_hash@, reader@, total as int) == Err::<(), Seq<char>>(e@),
        },
{
    match reader.finish() {
        Ok(hash) => if same(write_hash, hash.as_str()) {
            Ok(())
        } else {
            Err("verify_failed".to_string())
        },
        Err(n) => {
            let a = join("err:media (short read ", decimal_of(n).as_str());
            let b = join(join(a.as_str(), " of ").as_str(), decimal_of(total).as_str());
            Err(join(b.as_str(), " bytes)"))
        },
    }
}

// ---------------------------------------------------------------------------
// The script
// ---------------------------------------------------------------------------

/// A text made fit to stand between single quotes.
pub open spec fn doubled(s: Seq<char>) -> Seq<char> {
    replaced(s, '\'', "''"@)
}

/// What a text between single quotes stands for: two quotes are one.
pub open spec fn undoubled(s: Seq<char>) -> Seq<char>
    decreases s.len(),
{
    if s.len() == 0 {
        Seq::empty()
    } else if s.len() >= 2 && s.last() == '\'' && s[s.len() - 2] == '\'' {
        undoubled(s.drop_last().drop_last()).push('\'')
    } else {
        undoubled(s.drop_last()).push(s.last())
    }
}

/// A quoted text stands for the text it was made from.
pub proof fn lemma_quotes_undone(s: Seq<char>)
    ensures
        undoubled(doubled(s)) == s,
    decreases s.len(),
{
    reveal_strlit("''");
    if s.len() > 0 {
        let pre = s.drop_last();
        let c = s.last();
        lemma_quotes_undone(pre);
        let d = doubled(s);
        if c == '\'' {
            assert(d =~= doubled(pre) + "''"@);
            assert(d.drop_last().drop_last() =~= doubled(pre));
        } else {
            assert(d =~= doubled(pre).push(c));
            assert(d.drop_last() =~= doubled(pre));
        }
        assert(undoubled(d) =~= s);
    }
}

/// The start of the script, up to the device.
pub const SCRIPT_START: &'static str = "$ErrorActionPreference = \"Stop\"
try {
    $Device = '";

/// Between the device and the overlay.
pub const SCRIPT_OVERLAY: &'static str = "'
    $CustomDTBO = '";

/// Between the overlay and the variant.
pub const SCRIPT_VARIANT: &'static str = "'
    $Variant = '";

/// The rest of the script: mounts the boot partition, copies the overlay,
/// writes the variant, and switches the boot configuration for soysauce.
pub const SCRIPT_END: &'static str = "'

    $diskNum = [int]([regex]::Match($Device, '\\d+$').Value)

    # Find and mount boot partition
    $bootPart = Get-Partition -DiskNumber $diskNum -PartitionNumber 1 -ErrorAction SilentlyContinue
    if ($bootPart -and (-not $bootPart.DriveLetter -or $bootPart.DriveLetter -eq [char]0)) {
        $bootPart | Add-PartitionAccessPath -AssignDriveLetter -ErrorAction SilentlyContinue
        Start-Sleep -Seconds 2
        $bootPart = Get-Partition -DiskNumber $diskNum -PartitionNumber 1 -ErrorAction SilentlyContinue
    }

    if (-not ($bootPart -and $bootPart.DriveLetter -and $bootPart.DriveLetter -ne [char]0)) {
        throw \"Could not mount boot partition to configure panel\"
    }

    $bootDrive = \"$($bootPart.DriveLetter):\\\"
    if (-not (Test-Path $bootDrive)) {
        throw \"Boot partition drive $bootDrive not accessible\"
    }

    # Copy custom DTBO as mipi-panel.dtbo
    $overlayDir = Join-Path $bootDrive \"overlays\"
    if (-not (Test-Path $overlayDir)) {
        New-Item -ItemType Directory -Path $overlayDir -Force | Out-Null
    }
    if (-not (Test-Path $CustomDTBO)) {
        throw \"Custom DTBO not found at $CustomDTBO\"
    }
    Copy-Item $CustomDTBO (Join-Path $overlayDir \"mipi-panel.dtbo\") -Force

    # Write variant file
    Set-Content -Path (Join-Path $bootDrive \"variant\") -Value $Variant -NoNewline

    # Switch extlinux config for the soysauce variant (it boots with an
    # explicit FDT). This mirrors the Linux flash path; without it the
    # board keeps the default extlinux.conf, ignores extlinux.conf.soysauce,
    # and the console never boots.
    if ($Variant -eq 'soysauce') {
        $extlinuxDir = Join-Path $bootDrive \"extlinux\"
        $extlinuxConf = Join-Path $extlinuxDir \"extlinux.conf\"
        $soysauceConf = Join-Path $extlinuxDir \"extlinux.conf.soysauce\"
        if (Test-Path $soysauceConf) {
            if (Test-Path $extlinuxConf) {
                Copy-Item $extlinuxConf (Join-Path $extlinuxDir \"extlinux.conf.bak\") -Force
            }
            Copy-Item $soysauceConf $extlinuxConf -Force
        }
    }

    exit 0
} catch {
    Write-Error $_.Exception.Message
    exit 1
}
";

/// The script that sets up the boot partition after the image was written.
pub fn generate_windows_config_script(device: &str, custom_dtbo_path: &str, variant: &str) -> (r:
    String)
    ensures
        r@ == SCRIPT_START@ + doubled(device@) + SCRIPT_OVERLAY@ + doubled(custom_dtbo_path@)
            + SCRIPT_VARIANT@ + doubled(variant@) + SCRIPT_END@,
{
    let a = join(SCRIPT_START, replace(device, '\'', "''").as_str());
    let b = join(a.as_str(), SCRIPT_OVERLAY);
    let c = join(b.as_str(), replace(custom_dtbo_path, '\'', "''").as_str());
    let d = join(c.as_str(), SCRIPT_VARIANT);
    let e = join(d.as_str(), replace(variant, '\'', "''").as_str());
    join(e.as_str(), SCRIPT_END)
}

} // verus!
