//! What holds of every image that is written, of the device it ends up on and
//! of the names that devices have.

use crate::bytes::le_word;
use crate::digest::sha256_of;
use crate::dtbo_builder::zeros;
use crate::flash_windows::{
    disk_number, doubled, drive_letter, first_at, leading_digits, letters, utf16, utf16_char,
};
use crate::flashwrite::{
    next_len, overwritten, positional, rounded, verdict, WriterView, BLOCK_BYTES,
    FSYNC_INTERVAL_BYTES,
};
use crate::rawwrite_unix::{
    action_of, boot_range, device_after, last_wipe, sector_pad, ActionView, PatchStep, PatchView, CHUNK,
    MB, SECTOR,
};
use crate::text::{
    all_digits, decimal, hex_byte, hex_bytes, is_digit, lemma_decimal_reads, occurs_at, upper_form,
};
use crate::text_laws::{lemma_parts, lemma_replaced};
use vstd::prelude::*;
use vstd::utf8::*;

verus! {

// ---------------------------------------------------------------------------
// Arguments
// ---------------------------------------------------------------------------

/// The words that do not start with two dashes are the positional ones, in
/// their order; the others do not shift them.
pub proof fn lemma_positional(a: Seq<Seq<char>>, w: Seq<char>, b: Seq<Seq<char>>)
    ensures
        positional(a + b) == positional(a) + positional(b),
        positional(seq!["--"@ + w]) == Seq::<Seq<char>>::empty(),
        !(exists|x: Seq<char>| w == #[trigger] ("--"@ + x)) ==> positional(seq![w]) == seq![w],
        positional(Seq::<Seq<char>>::empty()) == Seq::<Seq<char>>::empty(),
    decreases b.len(),
{
    let flag = seq!["--"@ + w];
    lemma_parts("--"@ + w, "--"@);
    lemma_parts(w, "--"@);
    assert(flag.drop_last() =~= Seq::<Seq<char>>::empty());
    assert(seq![w].drop_last() =~= Seq::<Seq<char>>::empty());
    assert(positional(Seq::<Seq<char>>::empty()) =~= Seq::<Seq<char>>::empty());
    assert(Seq::<Seq<char>>::empty().push(w) =~= seq![w]);
    if b.len() == 0 {
        assert(a + b =~= a);
        assert(positional(a) + positional(b) =~= positional(a));
    } else {
        lemma_positional(a, w, b.drop_last());
        assert((a + b).drop_last() =~= a + b.drop_last());
        assert((a + b).last() == b.last());
        assert(positional(a) + positional(b.drop_last()).push(b.last()) =~= (positional(a)
            + positional(b.drop_last())).push(b.last()));
    }
}

// ---------------------------------------------------------------------------
// Sizes
// ---------------------------------------------------------------------------

/// A length is rounded up to the next multiple, and not further.
pub proof fn lemma_rounded(n: int, unit: int)
    requires
        n >= 0,
        unit > 0,
    ensures
        rounded(n, unit) % unit == 0,
        n <= rounded(n, unit) < n + unit,
        n % unit == 0 ==> rounded(n, unit) == n,
{
    let q = (n + unit - 1) / unit;
    assert(q * unit % unit == 0) by (nonlinear_arith)
        requires
            unit > 0,
    ;
    assert(n <= q * unit < n + unit) by (nonlinear_arith)
        requires
            unit > 0,
            q == (n + unit - 1) / unit,
    ;
    if n % unit == 0 {
        let k = n / unit;
        assert(n == k * unit) by (nonlinear_arith)
            requires
                unit > 0,
                k == n / unit,
                n % unit == 0,
        ;
        assert(q == k) by (nonlinear_arith)
            requires
                unit > 0,
                n == k * unit,
                n <= q * unit < n + unit,
        ;
    }
}

/// The last sector of an image is filled up, and only that.
pub proof fn lemma_sector(n: int)
    requires
        n >= 0,
    ensures
        (n + sector_pad(n)) % 512 == 0,
        sector_pad(n) < 512,
{
    lemma_rounded(n, 512);
}

/// An image is taken four megabytes at a time, and its last piece as it is; it
/// is made sure of every sixty-four.
pub proof fn lemma_next_piece(w: WriterView)
    requires
        w.data.len() <= w.image_size,
    ensures
        next_len(w) == (if w.image_size - w.data.len() >= 4 * 1024 * 1024 {
            0x40_0000int
        } else {
            w.image_size - w.data.len()
        }),
        next_len(w) == 0 <==> w.data.len() == w.image_size,
        FSYNC_INTERVAL_BYTES == 64 * 1024 * 1024,
        BLOCK_BYTES == 4096,
        CHUNK == 4 * 1024 * 1024,
        SECTOR == 512,
{
}

// ---------------------------------------------------------------------------
// The device
// ---------------------------------------------------------------------------

/// Writing bytes at a place changes them and no others.
pub proof fn lemma_overwritten(device: Seq<u8>, at: int, bytes: Seq<u8>, i: int)
    requires
        0 <= at,
        at + bytes.len() <= device.len(),
        0 <= i < device.len(),
    ensures
        overwritten(device, at, bytes).len() == device.len(),
        overwritten(device, at, bytes)[i] == (if at <= i < at + bytes.len() {
            bytes[i - at]
        } else {
            device[i]
        }),
{
}

/// The last megabyte of a device is wiped if it has more than two; where its
/// size is not known, only the first is.
pub proof fn lemma_last_wipe(size: u64)
    ensures
        last_wipe(None) is None,
        last_wipe(Some(size)) is Some <==> size > 2 * 1024 * 1024,
        last_wipe(Some(size)) matches Some(at) ==> at + 1024 * 1024 == size,
{
}

/// Every byte of a device behind a write: the image, then nothing of the old
/// partition tables at its two ends, and what was there in between.
pub proof fn lemma_device_bytes(device: Seq<u8>, sent: Seq<u8>, i: int)
    requires
        2 * 1024 * 1024 < device.len() <= u64::MAX,
        sent.len() <= device.len(),
        0 <= i < device.len(),
    ensures
        ({
            let d = device_after(device, Some(device.len() as u64), sent);
            &&& d.len() == device.len()
            &&& d[i] == (if i < sent.len() {
                sent[i]
            } else if i < 1024 * 1024 || i >= device.len() - 1024 * 1024 {
                0
            } else {
                device[i]
            })
        }),
{
    let first = overwritten(device, 0, zeros(MB as nat));
    let at = device.len() - MB;
    let wiped = overwritten(first, at, zeros(MB as nat));
    lemma_overwritten(device, 0, zeros(MB as nat), i);
    lemma_overwritten(first, at, zeros(MB as nat), i);
    lemma_overwritten(wiped, 0, sent, i);
}

/// The boot partition of an image, by the bytes of its partition table: the
/// first entry has to be FAT32 and to hold something.
pub proof fn lemma_boot_range(mbr: Seq<u8>)
    requires
        mbr.len() == 512,
    ensures
        ({
            let start = mbr[454] + 256 * mbr[455] + 65536 * mbr[456] + 16777216 * mbr[457];
            let count = mbr[458] + 256 * mbr[459] + 65536 * mbr[460] + 16777216 * mbr[461];
            let r = boot_range(mbr);
            &&& r is Ok <==> mbr[510] == 0x55 && mbr[511] == 0xaa && (mbr[450] == 0x0b || mbr[450]
                == 0x0c) && start != 0 && count != 0
            &&& r matches Ok(p) ==> p.0 == 512 * start && p.1 - p.0 == 512 * count
            &&& mbr[510] != 0x55 || mbr[511] != 0xaa ==> r == Err::<(u64, u64), Seq<char>>(
                "err:image_patch image has no MBR signature"@,
            )
            &&& mbr[510] == 0x55 && mbr[511] == 0xaa && mbr[450] != 0x0b && mbr[450] != 0x0c ==> r
                == Err::<(u64, u64), Seq<char>>(
                "err:image_patch first partition is not FAT32 (type 0x"@ + hex_bytes(
                    seq![mbr[450]],
                ) + ")"@,
            )
            &&& mbr[510] == 0x55 && mbr[511] == 0xaa && (mbr[450] == 0x0b || mbr[450] == 0x0c) && (
            start == 0 || count == 0) ==> r == Err::<(u64, u64), Seq<char>>(
                "err:image_patch empty boot partition entry"@,
            )
        }),
{
    let kind = seq![mbr[450]];
    assert(kind.drop_last() =~= Seq::<u8>::empty());
    assert(hex_bytes(kind.drop_last()) =~= Seq::<char>::empty());
    assert(hex_bytes(kind) =~= hex_byte(mbr[450]));
    let start = mbr[454] + 256 * mbr[455] + 65536 * mbr[456] + 16777216 * mbr[457];
    let count = mbr[458] + 256 * mbr[459] + 65536 * mbr[460] + 16777216 * mbr[461];
    assert(le_word(mbr, 454) == start);
    assert(le_word(mbr, 458) == count);
}

// ---------------------------------------------------------------------------
// What was read back
// ---------------------------------------------------------------------------

/// A write is good exactly if as many bytes were read as the image has and
/// they have its digest. The message tells how many came, or both digests.
pub proof fn lemma_read_back(hash: Seq<char>, read: Seq<u8>, total: nat)
    ensures
        ({
            let got = hex_bytes(sha256_of(read)@);
            let r = verdict(hash, read, total as int);
            let w = crate::flash_windows::verdict(hash, read, total as int);
            &&& r is Ok <==> read.len() == total && hash == got
            &&& w is Ok <==> read.len() == total && hash == got
            &&& read.len() != total ==> r == Err::<(), Seq<char>>(
                "verify: short read on device ("@ + decimal(read.len()) + " of "@ + decimal(total)
                    + " bytes)"@,
            ) && w == Err::<(), Seq<char>>(
                "err:media (short read "@ + decimal(read.len()) + " of "@ + decimal(total)
                    + " bytes)"@,
            )
            &&& read.len() == total && hash != got ==> r == Err::<(), Seq<char>>(
                "Verifying write failed. Contents of SD card is different from what was written to it.\n  expected: "@
                    + hash + "\n  got:      "@ + got,
            ) && w == Err::<(), Seq<char>>("verify_failed"@)
        }),
{
}

// ---------------------------------------------------------------------------
// Names on Windows
// ---------------------------------------------------------------------------

proof fn lemma_first_at(s: Seq<char>, p: Seq<char>, from: int, k: int)
    requires
        0 <= from <= k,
        occurs_at(s, p, k),
        forall|i: int| from <= i < k ==> !occurs_at(s, p, i),
    ensures
        first_at(s, p, from) == Some(k),
    decreases k - from,
{
    if from < k {
        lemma_first_at(s, p, from + 1, k);
    }
}

proof fn lemma_nowhere(s: Seq<char>, p: Seq<char>, from: int)
    requires
        0 <= from,
        forall|i: int| !occurs_at(s, p, i),
    ensures
        first_at(s, p, from) is None,
    decreases s.len() + 1 - from,
{
    if from <= s.len() {
        lemma_nowhere(s, p, from + 1);
    }
}

proof fn lemma_leading(d: Seq<char>, rest: Seq<char>)
    requires
        all_digits(d),
        rest.len() > 0 ==> !is_digit(rest[0]),
    ensures
        leading_digits(d + rest) == d,
    decreases d.len(),
{
    let s = d + rest;
    if d.len() == 0 {
        assert(s =~= rest);
    } else {
        assert(is_digit(d[0]));
        assert(s.skip(1) =~= d.skip(1) + rest);
        assert forall|i: int| 0 <= i < d.skip(1).len() implies is_digit(#[trigger] d.skip(1)[i]) by {
            assert(is_digit(d[i + 1]));
        }
        lemma_leading(d.skip(1), rest);
        assert(seq![d[0]] + d.skip(1) =~= d);
    }
}

/// The number of a physical drive is what follows its name, up to the first
/// character that is no digit, whatever stands before and behind.
pub proof fn lemma_disk_number(a: Seq<char>, n: u32, rest: Seq<char>, device: Seq<char>)
    requires
        forall|i: int| 0 <= i < a.len() ==> #[trigger] a[i] != 'P',
        rest.len() > 0 ==> !('0' <= rest[0] <= '9'),
    ensures
        disk_number(a + "PHYSICALDRIVE"@ + decimal(n as nat) + rest, device) == Ok::<u32, Seq<char>>(
            n,
        ),
        disk_number(a + "PHYSICALDRIVE"@ + rest, device) == Err::<u32, Seq<char>>(
            "No disk number in: "@ + device,
        ),
        disk_number(a, device) == Err::<u32, Seq<char>>("Not a physical drive path: "@ + device),
{
    let p = "PHYSICALDRIVE"@;
    reveal_strlit("PHYSICALDRIVE");
    let d = decimal(n as nat);
    lemma_decimal_reads(n as nat);
    let s = a + p + d + rest;
    let t = a + p + rest;
    let k = a.len() as int;
    lemma_starts_at(a, p, d + rest);
    lemma_starts_at(a, p, rest);
    assert(s =~= a + p + (d + rest));
    assert(s.skip(k + p.len()) =~= d + rest);
    assert(t.skip(k + p.len()) =~= rest);
    lemma_leading(d, rest);
    assert(Seq::<char>::empty() + rest =~= rest);
    lemma_leading(Seq::empty(), rest);
    assert forall|i: int| !occurs_at(a, p, i) by {
        if occurs_at(a, p, i) {
            assert(a.subrange(i, i + p.len())[0] == a[i]);
        }
    }
    lemma_nowhere(a, p, 0);
}

proof fn lemma_starts_at(a: Seq<char>, p: Seq<char>, b: Seq<char>)
    requires
        p.len() > 0,
        p[0] == 'P',
        forall|i: int| 0 <= i < a.len() ==> #[trigger] a[i] != 'P',
    ensures
        first_at(a + p + b, p, 0) == Some(a.len() as int),
{
    let s = a + p + b;
    let k = a.len() as int;
    assert(s.subrange(k, k + p.len()) =~= p);
    assert forall|i: int| 0 <= i < k implies !occurs_at(s, p, i) by {
        if occurs_at(s, p, i) {
            assert(s.subrange(i, i + p.len())[0] == s[i]);
            assert(s[i] == a[i]);
        }
    }
    lemma_first_at(s, p, 0, k);
}

/// The drives of a mask are the letters whose bits are set, from A on, each
/// once and in the order of the alphabet.
pub proof fn lemma_letters(mask: u32, n: int, i: int)
    requires
        0 <= n <= 26,
        0 <= i < 26,
    ensures
        letters(mask, n).contains((65 + i) as char) <==> i < n && mask & (1u32 << (i as u32)) != 0,
        forall|j: int, k: int|
            0 <= j < k < letters(mask, n).len() ==> #[trigger] letters(mask, n)[j]
                < #[trigger] letters(mask, n)[k],
        forall|j: int|
            0 <= j < letters(mask, n).len() ==> 65 <= (#[trigger] letters(mask, n)[j]) as int
                && (letters(mask, n)[j] as int) < 65 + n,
    decreases n,
{
    let all = letters(mask, n);
    if n > 0 {
        lemma_letters(mask, n - 1, i);
        let before = letters(mask, n - 1);
        let c = drive_letter(n - 1);
        assert(c as int == 64 + n);
        if mask & (1u32 << ((n - 1) as u32)) != 0 {
            assert(all == before.push(c));
            assert(all[before.len() as int] == c);
            if before.contains((65 + i) as char) {
                let j = choose|j: int| 0 <= j < before.len() && before[j] == (65 + i) as char;
                assert(all[j] == before[j]);
            }
            if all.contains((65 + i) as char) && i != n - 1 {
                let j = choose|j: int| 0 <= j < all.len() && all[j] == (65 + i) as char;
                assert(j < before.len());
                assert(before[j] == all[j]);
            }
            assert forall|j: int, k: int| 0 <= j < k < all.len() implies #[trigger] all[j]
                < #[trigger] all[k] by {
                assert(all[j] == before[j]);
                if k < before.len() {
                    assert(all[k] == before[k]);
                }
            }
            assert forall|j: int| 0 <= j < all.len() implies 65 <= (#[trigger] all[j]) as int
                && (all[j] as int) < 65 + n by {
                if j < before.len() {
                    assert(all[j] == before[j]);
                }
            }
        } else {
            assert(all == before);
            if i == n - 1 && before.contains((65 + i) as char) {
                let j = choose|j: int| 0 <= j < before.len() && before[j] == (65 + i) as char;
                assert((before[j] as int) < 65 + n - 1);
            }
        }
    }
}

/// Text in sixteen-bit units: one for a character of the basic plane, a pair
/// of surrogates for any other, from which the character can be had back.
pub proof fn lemma_utf16(a: Seq<char>, c: char, b: Seq<char>)
    ensures
        utf16(a + b) == utf16(a) + utf16(b),
        c as int <= 0xffff ==> utf16(seq![c]).len() == 1 && utf16(seq![c])[0] == c as int,
        c as int > 0xffff ==> {
            let u = utf16(seq![c]);
            &&& u.len() == 2
            &&& 0xd800 <= u[0] <= 0xdbff
            &&& 0xdc00 <= u[1] <= 0xdfff
            &&& c as int == 0x10000 + (u[0] - 0xd800) * 0x400 + (u[1] - 0xdc00)
        },
        utf16(Seq::<char>::empty()) == Seq::<u16>::empty(),
    decreases b.len(),
{
    let one = seq![c];
    assert(one.drop_last() =~= Seq::<char>::empty());
    assert(utf16(one.drop_last()) =~= Seq::<u16>::empty());
    assert(utf16(one) =~= utf16_char(c));
    assert(c as u32 <= 0x10ffff);
    if b.len() == 0 {
        assert(a + b =~= a);
        assert(utf16(a) + utf16(b) =~= utf16(a));
    } else {
        lemma_utf16(a, c, b.drop_last());
        assert((a + b).drop_last() =~= a + b.drop_last());
        assert((a + b).last() == b.last());
        assert(utf16(a) + (utf16(b.drop_last()) + utf16_char(b.last())) =~= utf16(a) + utf16(
            b.drop_last(),
        ) + utf16_char(b.last()));
    }
}

/// Only quotes are doubled in the text of a script.
pub proof fn lemma_doubled(a: Seq<char>, x: char, b: Seq<char>)
    ensures
        doubled(a + b) == doubled(a) + doubled(b),
        doubled(seq![x]) == (if x == '\'' {
            seq!['\'', '\'']
        } else {
            seq![x]
        }),
{
    reveal_strlit("''");
    assert("''"@ =~= seq!['\'', '\'']);
    lemma_replaced(a, b, x, '\'', "''"@);
}

proof fn lemma_upper_joined(a: Seq<char>, b: Seq<char>)
    requires
        is_ascii_chars(a),
        is_ascii_chars(b),
    ensures
        is_ascii_chars(a + b),
        upper_form(a + b) == upper_form(a) + upper_form(b),
{
    let s = a + b;
    assert forall|i: int| 0 <= i < s.len() implies 0 <= #[trigger] s[i] as int && s[i] as int <= 0x7f by {
        if i < a.len() {
            assert(s[i] == a[i]);
        } else {
            assert(s[i] == b[i - a.len()]);
        }
    }
    assert(upper_form(s) =~= upper_form(a) + upper_form(b));
}

/// A path of a physical drive has the number that stands at its end, however
/// its letters are written.
pub proof fn lemma_drive_path(name: Seq<char>, n: u32)
    requires
        is_ascii_chars(name),
        upper_form(name) == "PHYSICALDRIVE"@,
    ensures
        ({
            let device = seq!['\\', '\\', '.', '\\'] + name + decimal(n as nat);
            disk_number(upper_form(device), device) == Ok::<u32, Seq<char>>(n)
        }),
{
    let a = seq!['\\', '\\', '.', '\\'];
    let d = decimal(n as nat);
    let device = a + name + d;
    lemma_decimal_reads(n as nat);
    assert forall|i: int| 0 <= i < d.len() implies 0 <= #[trigger] d[i] as int && d[i] as int <= 0x7f by {
        assert(is_digit(d[i]));
    }
    assert(is_ascii_chars(d));
    assert(is_ascii_chars(a));
    lemma_upper_joined(a, name);
    lemma_upper_joined(a + name, d);
    assert(upper_form(a) =~= a);
    assert forall|i: int| 0 <= i < d.len() implies #[trigger] upper_form(d)[i] == d[i] by {
        assert(is_digit(d[i]));
    }
    assert(upper_form(d) =~= d);
    let none = Seq::<char>::empty();
    lemma_disk_number(a, n, none, device);
    assert(a + "PHYSICALDRIVE"@ + d + none =~= upper_form(device));
}

// ---------------------------------------------------------------------------
// The boot partition
// ---------------------------------------------------------------------------

/// Of the files that are written to the boot partition only the boot menu has
/// to be there already; of those that are read only the menu of the variant
/// may be missing. Each is called by its name where something goes wrong.
pub proof fn lemma_patch_files(v: PatchView)
    ensures
        action_of(v) matches Some(ActionView::Write { path, label, create, data }) ==> {
            &&& create <==> path != "extlinux/extlinux.conf"@
            &&& path == "overlays/mipi-panel.dtbo"@ ==> data == v.dtbo && label == "overlay"@
            &&& path == "variant"@ ==> data == encode_utf8(v.variant) && label == "variant"@
            &&& path == "extlinux/extlinux.conf.bak"@ ==> data == v.current && label
                == "conf backup"@
            &&& path == "extlinux/extlinux.conf"@ ==> data == v.alternate && label
                == "extlinux.conf"@
        },
        action_of(v) matches Some(ActionView::Read { path, label, optional }) ==> {
            &&& optional <==> path == "extlinux/extlinux.conf.soysauce"@
            &&& optional <==> label == "soysauce conf"@
            &&& !optional ==> path == "extlinux/extlinux.conf"@ && label == "extlinux.conf"@
        },
        action_of(v) is None <==> v.step == PatchStep::Finished,
{
    reveal_strlit("overlays/mipi-panel.dtbo");
    reveal_strlit("variant");
    reveal_strlit("extlinux/extlinux.conf");
    reveal_strlit("extlinux/extlinux.conf.bak");
    reveal_strlit("extlinux/extlinux.conf.soysauce");
    reveal_strlit("soysauce conf");
    reveal_strlit("extlinux.conf");
    assert("overlays/mipi-panel.dtbo"@.len() == 24);
    assert("variant"@.len() == 7);
    assert("extlinux/extlinux.conf"@.len() == 22);
    assert("extlinux/extlinux.conf.bak"@.len() == 26);
    assert("extlinux/extlinux.conf.soysauce"@.len() == 31);
    assert("soysauce conf"@[0] == 's');
    assert("extlinux.conf"@[0] == 'e');
}

} // verus!
