//! Mounted cards: which volumes are boot partitions of the system, and which
//! overlay one holds.

use crate::digest::{md5_hex, md5_of};
use crate::flash_windows::drive_letter;
use crate::text::{
    chars_of, hex_bytes, join, lemma_views_push, lines, same, split_whitespace, string_of,
    text_lines, trim, trimmed, views, words,
};
use vstd::prelude::*;

verus! {

/// What is known of a boot partition.
#[derive(Clone)]
pub struct OverlayStatus {
    pub boot_path: String,
    pub has_archr: bool,
    /// Short identifier of the active overlay: a prefix of its digest, or
    /// "default" where there is no overlay.
    pub current_overlay: Option<String>,
    pub current_panel_name: Option<String>,
    pub variant: Option<String>,
}

/// The mount points of the FAT file systems in a mount table.
pub open spec fn fat_mounts(ls: Seq<Seq<char>>) -> Seq<Seq<char>>
    decreases ls.len(),
{
    if ls.len() == 0 {
        Seq::empty()
    } else {
        let before = fat_mounts(ls.drop_last());
        let w = words(ls.last());
        if w.len() >= 3 && w[2] == "vfat"@ {
            before.push(w[1])
        } else {
            before
        }
    }
}

/// The mount points of the FAT file systems in a mount table.
pub fn vfat_mounts(mounts: &str) -> (r: Vec<String>)
    ensures
        views(r@) == fat_mounts(text_lines(mounts@)),
{
    let ls = lines(mounts);
    let ghost all = views(ls@);
    let mut r: Vec<String> = Vec::new();
    let mut i: usize = 0;
    assert(views(r@) =~= fat_mounts(all.take(0)));
    while i < ls.len()
        invariant
            i <= ls@.len(),
            all == views(ls@),
            views(r@) == fat_mounts(all.take(i as int)),
        decreases ls@.len() - i,
    {
        assert(all.take(i + 1).drop_last() =~= all.take(i as int));
        assert(all.take(i + 1).last() == ls@[i as int]@);
        let w = split_whitespace(ls[i].as_str());
        assert(views(w@).len() == w@.len());
        if w.len() >= 3 && same(w[2].as_str(), "vfat") {
            let s = w[1].clone();
            proof {
                lemma_views_push(r@, s);
            }
            r.push(s);
        }
        i += 1;
    }
    assert(all.take(i as int) =~= all);
    r
}

/// The paths that were found to be boot partitions.
pub open spec fn kept(paths: Seq<Seq<char>>, boot: Seq<bool>) -> Seq<Seq<char>>
    decreases paths.len(),
{
    if paths.len() == 0 {
        Seq::empty()
    } else if boot[paths.len() - 1] {
        kept(paths.drop_last(), boot).push(paths.last())
    } else {
        kept(paths.drop_last(), boot)
    }
}

/// The paths that were found to be boot partitions, in order.
pub fn boot_partitions(paths: &Vec<String>, boot: &Vec<bool>) -> (r: Vec<String>)
    requires
        paths@.len() == boot@.len(),
    ensures
        views(r@) == kept(views(paths@), boot@),
{
    let ghost all = views(paths@);
    let mut r: Vec<String> = Vec::new();
    let mut i: usize = 0;
    assert(views(r@) =~= kept(all.take(0), boot@));
    while i < paths.len()
        invariant
            i <= paths@.len(),
            paths@.len() == boot@.len(),
            all == views(paths@),
            views(r@) == kept(all.take(i as int), boot@),
        decreases paths@.len() - i,
    {
        assert(all.take(i + 1).drop_last() =~= all.take(i as int));
        assert(all.take(i + 1).last() == paths@[i as int]@);
        if boot[i] {
            let s = paths[i].clone();
            proof {
                lemma_views_push(r@, s);
            }
            r.push(s);
        }
        i += 1;
    }
    assert(all.take(i as int) =~= all);
    r
}

/// The volumes in a list of lines: each once, at its first place.
pub open spec fn listed_volumes(ls: Seq<Seq<char>>) -> Seq<Seq<char>>
    decreases ls.len(),
{
    if ls.len() == 0 {
        Seq::empty()
    } else {
        let before = listed_volumes(ls.drop_last());
        let p = trimmed(ls.last());
        if p.len() == 0 || before.contains(p) {
            before
        } else {
            before.push(p)
        }
    }
}

fn holds(list: &Vec<String>, s: &str) -> (r: bool)
    ensures
        r == views(list@).contains(s@),
{
    let ghost all = views(list@);
    let mut i: usize = 0;
    while i < list.len()
        invariant
            i <= list@.len(),
            all == views(list@),
            forall|j: int| 0 <= j < i ==> all[j] != s@,
        decreases list@.len() - i,
    {
        assert(all[i as int] == list@[i as int]@);
        if same(list[i].as_str(), s) {
            return true;
        }
        i += 1;
    }
    false
}

/// The volumes that a listing names.
pub fn volume_paths(listing: &str) -> (r: Vec<String>)
    ensures
        views(r@) == listed_volumes(text_lines(listing@)),
{
    let ls = lines(listing);
    let ghost all = views(ls@);
    let mut r: Vec<String> = Vec::new();
    let mut i: usize = 0;
    assert(views(r@) =~= listed_volumes(all.take(0)));
    while i < ls.len()
        invariant
            i <= ls@.len(),
            all == views(ls@),
            views(r@) == listed_volumes(all.take(i as int)),
        decreases ls@.len() - i,
    {
        assert(all.take(i + 1).drop_last() =~= all.take(i as int));
        assert(all.take(i + 1).last() == ls@[i as int]@);
        let p = trim(ls[i].as_str());
        if !p.as_str().is_empty() && !holds(&r, p.as_str()) {
            proof {
                lemma_views_push(r@, p);
            }
            r.push(p);
        }
        i += 1;
    }
    assert(all.take(i as int) =~= all);
    r
}

/// No volume is listed twice.
pub proof fn lemma_volumes_distinct(ls: Seq<Seq<char>>)
    ensures
        listed_volumes(ls).no_duplicates(),
    decreases ls.len(),
{
    if ls.len() > 0 {
        lemma_volumes_distinct(ls.drop_last());
    }
}

/// The root of the `i`-th drive.
pub open spec fn drive_root(i: int) -> Seq<char> {
    seq![drive_letter(i), ':', '\\']
}

/// The roots of the first `n` drives, without those that were seen.
pub open spec fn unseen_drives(seen: Seq<Seq<char>>, n: int) -> Seq<Seq<char>>
    decreases n,
{
    if n <= 0 {
        Seq::empty()
    } else if seen.contains(drive_root(n - 1)) {
        unseen_drives(seen, n - 1)
    } else {
        unseen_drives(seen, n - 1).push(drive_root(n - 1))
    }
}

/// The drives to look at when no listed volume is a boot partition: all the
/// letters that the listing did not name.
pub fn fallback_drives(seen: &Vec<String>) -> (r: Vec<String>)
    ensures
        views(r@) == unseen_drives(views(seen@), 26),
{
    let mut r: Vec<String> = Vec::new();
    let mut i: u8 = 0;
    assert(views(r@) =~= unseen_drives(views(seen@), 0));
    while i < 26
        invariant
            i <= 26,
            views(r@) == unseen_drives(views(seen@), i as int),
        decreases 26 - i,
    {
        let mut s = String::new();
        s.push((65 + i) as char);
        s.push(':');
        s.push('\\');
        assert(s@ =~= drive_root(i as int));
        if !holds(seen, s.as_str()) {
            proof {
                lemma_views_push(r@, s);
            }
            r.push(s);
        }
        i += 1;
    }
    r
}

/// Whether a volume is a boot partition of the system: it has the kernel and
/// the two directories.
pub fn is_archr_boot(has_kernel: bool, has_dtbs: bool, has_overlays: bool) -> (r: bool)
    ensures
        r == (has_kernel && has_dtbs && has_overlays),
{
    has_kernel && has_dtbs && has_overlays
}

/// The active overlay of a volume, as a file.
pub enum OverlayFile {
    /// There is no such file.
    Absent,
    /// It is there but cannot be read.
    Unreadable,
    /// Its bytes.
    Holds(Vec<u8>),
}

/// The status of a volume. `variant` is the text of its variant file, where
/// it can be read.
pub fn read_overlay_status(
    boot_path: &str,
    is_boot: bool,
    variant: Option<String>,
    overlay: OverlayFile,
) -> (r: OverlayStatus)
    ensures
        r.boot_path@ == boot_path@,
        r.has_archr == is_boot,
        match r.variant {
            Some(v) => is_boot && variant is Some && v@ == trimmed(variant->0@),
            None => !is_boot || variant is None,
        },
        match r.current_overlay {
            Some(id) => is_boot && match overlay {
                OverlayFile::Absent => id@ == "default"@,
                OverlayFile::Unreadable => false,
                OverlayFile::Holds(data) => id@ == "custom ("@ + hex_bytes(md5_of(data@)@).take(8)
                    + ")"@,
            },
            None => !is_boot || overlay is Unreadable,
        },
        match r.current_panel_name {
            Some(n) => is_boot && overlay is Holds && n@ == "Custom overlay"@,
            None => !is_boot || !(overlay is Holds),
        },
{
    if !is_boot {
        return OverlayStatus {
            boot_path: boot_path.to_string(),
            has_archr: false,
            current_overlay: None,
            current_panel_name: None,
            variant: None,
        };
    }
    let variant = match variant {
        Some(t) => Some(trim(t.as_str())),
        None => None,
    };
    let (current_overlay, current_panel_name) = match overlay {
        OverlayFile::Holds(data) => {
            let hash = chars_of(md5_hex(data.as_slice()).as_str());
            let prefix = string_of(&hash, 0, 8);
            assert(hash@.subrange(0, 8) =~= hash@.take(8));
            let id = join(join("custom (", prefix.as_str()).as_str(), ")");
            (Some(id), Some("Custom overlay".to_string()))
        },
        OverlayFile::Absent => (Some("default".to_string()), None),
        OverlayFile::Unreadable => (None, None),
    };
    OverlayStatus {
        boot_path: boot_path.to_string(),
        has_archr: true,
        current_overlay,
        current_panel_name,
        variant,
    }
}

} // verus!
