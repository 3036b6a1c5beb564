//! What holds of every run of a flash job, of the boot partitions that are
//! found and of the panels on offer.

use crate::flash_job::{failed, first_state, overlay_read, succeeded, Choices, JobStateView};
use crate::overlay::{drive_root, fat_mounts, kept, listed_volumes, unseen_drives};
use crate::panel_config::{custom_dtbo, custom_fits};
use crate::panels::{clone_panels, original_panels, panels_of, PanelView};
use crate::text::{decimal, is_white, starts, trimmed, words};
use crate::text_laws::{lemma_decimal_step, lemma_words};
use crate::tree::readable;
use vstd::prelude::*;

verus! {

// ---------------------------------------------------------------------------
// The job
// ---------------------------------------------------------------------------

/// The state behind `k` steps that all succeeded, the overlay being what was
/// read.
pub open spec fn run(c: Choices, dtbo: Seq<u8>, k: nat) -> JobStateView
    decreases k,
{
    if k == 0 {
        first_state(c)
    } else {
        succeeded(c, run(c, dtbo, (k - 1) as nat), dtbo)
    }
}

/// A run that meets no fault reads the overlay, from the user's file or from
/// the image, puts the customized one into a file, writes the card once, with
/// the image unpacked before if need be, and removes what it made.
pub proof fn lemma_run(c: Choices, dtbo: Seq<u8>, v: Seq<u8>)
    requires
        overlay_read(c, dtbo) == JobStateView::WriteOverlay(v),
    ensures
        ({
            let w: nat = if !c.custom && c.compressed {
                2
            } else {
                1
            };
            let f: nat = if c.custom && c.compressed {
                3
            } else {
                (w + 1) as nat
            };
            let read = run(c, dtbo, (w - 1) as nat);
            &&& c.custom ==> read == JobStateView::ReadCustom
            &&& !c.custom ==> read == (JobStateView::ReadImage { fallback: false })
            &&& run(c, dtbo, w) == JobStateView::WriteOverlay(v)
            &&& run(c, dtbo, f) == JobStateView::Flash
            &&& c.compressed && c.custom ==> run(c, dtbo, 2) == JobStateView::Prepare
            &&& c.compressed && !c.custom ==> run(c, dtbo, 0) == JobStateView::Prepare
            &&& run(c, dtbo, (f + 1) as nat) == JobStateView::RemoveOverlay
            &&& c.compressed ==> run(c, dtbo, (f + 2) as nat) == JobStateView::RemoveImage && run(
                c,
                dtbo,
                (f + 3) as nat,
            ) == JobStateView::Done(Ok(()))
            &&& !c.compressed ==> run(c, dtbo, (f + 2) as nat) == JobStateView::Done(Ok(()))
        }),
{
    let s1 = run(c, dtbo, 1);
    let s2 = run(c, dtbo, 2);
    let s3 = run(c, dtbo, 3);
    let s4 = run(c, dtbo, 4);
    let s5 = run(c, dtbo, 5);
    let s6 = run(c, dtbo, 6);
    assert(run(c, dtbo, 0) == first_state(c));
    assert(s1 == succeeded(c, first_state(c), dtbo));
    assert(s2 == succeeded(c, s1, dtbo));
    assert(s3 == succeeded(c, s2, dtbo));
    assert(s4 == succeeded(c, s3, dtbo));
    assert(s5 == succeeded(c, s4, dtbo));
    assert(s6 == succeeded(c, s5, dtbo));
}

/// The overlay that is flashed: as it was read if the settings change nothing,
/// else customized; one that cannot be customized stops the run.
pub proof fn lemma_overlay_flashed(c: Choices, dtbo: Seq<u8>)
    ensures
        ({
            let nothing = c.config.rotation == 0 && !c.config.invert_left_stick
                && !c.config.invert_right_stick && !c.config.hp_invert;
            &&& nothing ==> overlay_read(c, dtbo) == JobStateView::WriteOverlay(dtbo)
            &&& !nothing && !(readable(dtbo) && custom_fits(dtbo, c.config)) ==> overlay_read(
                c,
                dtbo,
            ) == JobStateView::Broken
            &&& !nothing && readable(dtbo) && custom_fits(dtbo, c.config) ==> overlay_read(c, dtbo)
                == (match custom_dtbo(dtbo, c.config) {
                Ok(v) => JobStateView::WriteOverlay(v),
                Err(e) => JobStateView::Done(Err(e)),
            })
        }),
{
}

/// A fault ends a run with its message, and nothing is written behind it.
/// There are two exceptions: an overlay that the image does not have for the
/// variant is looked for under the name that the panel has, once, if that is
/// another; and what cannot be removed is left.
pub proof fn lemma_run_fails(c: Choices, s: JobStateView, m: Seq<char>, dtbo: Seq<u8>)
    ensures
        s == (JobStateView::ReadImage { fallback: false }) && c.variant_dtbo != c.panel_dtbo
            ==> failed(c, s, m) == (JobStateView::ReadImage { fallback: true }),
        s == (JobStateView::ReadImage { fallback: false }) && c.variant_dtbo == c.panel_dtbo
            ==> failed(c, s, m) == JobStateView::Done(Err(m)),
        s == (JobStateView::ReadImage { fallback: true }) ==> failed(c, s, m) == JobStateView::Done(
            Err(m),
        ),
        s is ReadCustom || s is Prepare || s is WriteOverlay || s is Flash ==> failed(c, s, m)
            == JobStateView::Done(Err(m)),
        s is RemoveOverlay || s is RemoveImage ==> failed(c, s, m) == succeeded(c, s, dtbo),
        s is Done || s is Broken ==> failed(c, s, m) == s && succeeded(c, s, dtbo) == s,
        succeeded(c, JobStateView::ReadImage { fallback: true }, dtbo) == succeeded(
            c,
            JobStateView::ReadImage { fallback: false },
            dtbo,
        ),
{
}

// ---------------------------------------------------------------------------
// Boot partitions
// ---------------------------------------------------------------------------

/// The mounts of one list of lines and of another are those of both.
pub proof fn lemma_mounts_joined(a: Seq<Seq<char>>, b: Seq<Seq<char>>)
    ensures
        fat_mounts(a + b) == fat_mounts(a) + fat_mounts(b),
        fat_mounts(Seq::<Seq<char>>::empty()) == Seq::<Seq<char>>::empty(),
    decreases b.len(),
{
    if b.len() == 0 {
        assert(a + b =~= a);
        assert(fat_mounts(a) + fat_mounts(b) =~= fat_mounts(a));
    } else {
        lemma_mounts_joined(a, b.drop_last());
        assert((a + b).drop_last() =~= a + b.drop_last());
        assert((a + b).last() == b.last());
        let w = words(b.last());
        assert(fat_mounts(a) + fat_mounts(b.drop_last()).push(w[1]) =~= (fat_mounts(a)
            + fat_mounts(b.drop_last())).push(w[1]));
    }
}

/// No character of the text is white space.
pub open spec fn solid(s: Seq<char>) -> bool {
    s.len() > 0 && forall|i: int| 0 <= i < s.len() ==> !is_white(#[trigger] s[i])
}

/// A line of the mount table gives the place, the second word, exactly if the
/// third says that the file system is FAT.
pub proof fn lemma_mount_line(
    device: Seq<char>,
    place: Seq<char>,
    system: Seq<char>,
    rest: Seq<char>,
)
    requires
        solid(device),
        solid(place),
        solid(system),
    ensures
        fat_mounts(
            seq![device + seq![' '] + (place + seq![' '] + (system + seq![' '] + rest))],
        ) == (if system == seq!['v', 'f', 'a', 't'] {
            seq![place]
        } else {
            Seq::empty()
        }),
{
    reveal_strlit("vfat");
    assert("vfat"@ =~= seq!['v', 'f', 'a', 't']);
    let l2 = system + seq![' '] + rest;
    let l1 = place + seq![' '] + l2;
    let l = device + seq![' '] + l1;
    lemma_words(system, ' ', rest);
    lemma_words(place, ' ', l2);
    lemma_words(device, ' ', l1);
    let w = words(l);
    assert(w =~= seq![device, place, system] + words(rest));
    assert(w[1] == place && w[2] == system);
    let one = seq![l];
    assert(one.drop_last() =~= Seq::<Seq<char>>::empty());
    assert(fat_mounts(one.drop_last()) =~= Seq::<Seq<char>>::empty());
    assert(Seq::<Seq<char>>::empty().push(place) =~= seq![place]);
}

proof fn lemma_kept_longer(paths: Seq<Seq<char>>, boot: Seq<bool>, b: bool)
    requires
        paths.len() <= boot.len(),
    ensures
        kept(paths, boot.push(b)) == kept(paths, boot),
    decreases paths.len(),
{
    if paths.len() > 0 {
        lemma_kept_longer(paths.drop_last(), boot, b);
        assert(boot.push(b)[paths.len() - 1] == boot[paths.len() - 1]);
    }
}

/// The paths that are boot partitions are kept, in their order, and no others.
pub proof fn lemma_kept(paths: Seq<Seq<char>>, boot: Seq<bool>, p: Seq<char>, b: bool)
    requires
        paths.len() == boot.len(),
    ensures
        kept(Seq::<Seq<char>>::empty(), boot) == Seq::<Seq<char>>::empty(),
        kept(paths.push(p), boot.push(b)) == (if b {
            kept(paths, boot).push(p)
        } else {
            kept(paths, boot)
        }),
{
    lemma_kept_longer(paths, boot, b);
    assert(paths.push(p).drop_last() =~= paths);
    assert(boot.push(b)[paths.len() as int] == b);
}

/// The volumes are the lines that say something, without the space around
/// them, each at its first place.
pub proof fn lemma_volumes(ls: Seq<Seq<char>>, l: Seq<char>, p: Seq<char>)
    ensures
        listed_volumes(ls).contains(p) <==> p.len() > 0 && exists|i: int|
            0 <= i < ls.len() && trimmed(#[trigger] ls[i]) == p,
        listed_volumes(ls.push(l)) == listed_volumes(ls) || listed_volumes(ls.push(l))
            == listed_volumes(ls).push(trimmed(l)),
    decreases ls.len(),
{
    assert(ls.push(l).drop_last() =~= ls);
    let v = listed_volumes(ls);
    if ls.len() > 0 {
        let before = ls.drop_last();
        lemma_volumes(before, l, p);
        let w = listed_volumes(before);
        let t = trimmed(ls.last());
        assert(ls.last() == ls[ls.len() - 1]);
        if w.contains(p) {
            let k = choose|k: int| 0 <= k < w.len() && w[k] == p;
            assert(v[k] == p);
            let i = choose|i: int| 0 <= i < before.len() && trimmed(#[trigger] before[i]) == p;
            assert(ls[i] == before[i]);
        }
        if t == p && p.len() > 0 {
            if !w.contains(p) {
                assert(v == w.push(p));
                assert(v[w.len() as int] == p);
            }
        }
        if v.contains(p) && !w.contains(p) {
            let k = choose|k: int| 0 <= k < v.len() && v[k] == p;
            assert(v == w.push(t));
            if k < w.len() {
                assert(w[k] == p);
            }
            assert(p == t);
        }
        if p.len() > 0 && exists|i: int| 0 <= i < ls.len() && trimmed(#[trigger] ls[i]) == p {
            let i = choose|i: int| 0 <= i < ls.len() && trimmed(#[trigger] ls[i]) == p;
            if i < before.len() {
                assert(before[i] == ls[i]);
            }
        }
    }
}

/// The drives that are looked at besides those already seen are all others,
/// in the order of the alphabet.
pub proof fn lemma_unseen(seen: Seq<Seq<char>>, n: int, i: int)
    requires
        0 <= n <= 26,
        0 <= i < 26,
    ensures
        ({
            let root = seq![(65 + i) as char, ':', '\\'];
            let r = unseen_drives(seen, n);
            &&& r.contains(root) <==> i < n && !seen.contains(root)
            &&& forall|j: int|
                0 <= j < r.len() ==> (#[trigger] r[j]).len() == 3 && 65 <= r[j][0] as int && (
                r[j][0] as int) < 65 + n
            &&& forall|j: int, k: int|
                0 <= j < k < r.len() ==> (#[trigger] r[j])[0] < (#[trigger] r[k])[0]
        }),
    decreases n,
{
    let root = seq![(65 + i) as char, ':', '\\'];
    let r = unseen_drives(seen, n);
    if n > 0 {
        lemma_unseen(seen, n - 1, i);
        let b = unseen_drives(seen, n - 1);
        let d = drive_root(n - 1);
        assert(d[0] as int == 64 + n);
        if i == n - 1 {
            assert(d =~= root);
        } else {
            assert(root[0] as int == 65 + i);
            assert(d != root);
        }
        if seen.contains(d) {
            assert(r == b);
            if i == n - 1 && b.contains(root) {
                let k = choose|k: int| 0 <= k < b.len() && b[k] == root;
                assert((b[k][0] as int) < 65 + n - 1);
            }
        } else {
            assert(r == b.push(d));
            assert(r[b.len() as int] == d);
            if b.contains(root) {
                let k = choose|k: int| 0 <= k < b.len() && b[k] == root;
                assert(r[k] == root);
            }
            if r.contains(root) && i != n - 1 {
                let k = choose|k: int| 0 <= k < r.len() && r[k] == root;
                assert(k < b.len());
                assert(b[k] == root);
            }
            assert forall|j: int| 0 <= j < r.len() implies (#[trigger] r[j]).len() == 3 && 65
                <= r[j][0] as int && (r[j][0] as int) < 65 + n by {
                if j < b.len() {
                    assert(r[j] == b[j]);
                }
            }
            assert forall|j: int, k: int| 0 <= j < k < r.len() implies (#[trigger] r[j])[0] < (
            #[trigger] r[k])[0] by {
                assert(r[j] == b[j]);
                if k < b.len() {
                    assert(r[k] == b[k]);
                }
            }
        }
    }
}

// ---------------------------------------------------------------------------
// Panels
// ---------------------------------------------------------------------------

/// Each numbered panel of the original console has its number in its name and
/// in the name of its file.
pub proof fn lemma_numbered_panels(n: nat)
    requires
        n <= 6,
    ensures
        panels_of("original"@).contains(
            PanelView {
                id: decimal(n),
                name: "Panel "@ + decimal(n),
                dtbo: "panel"@ + decimal(n) + ".dtbo"@,
            },
        ),
{
    reveal_strlit("Panel ");
    reveal_strlit("panel");
    reveal_strlit(".dtbo");
    lemma_decimal_step(0, n);
    let v = PanelView {
        id: decimal(n),
        name: "Panel "@ + decimal(n),
        dtbo: "panel"@ + decimal(n) + ".dtbo"@,
    };
    let ps = original_panels();
    if n == 0 {
        reveal_strlit("0");
        reveal_strlit("Panel 0");
        reveal_strlit("panel0.dtbo");
        assert(v.id =~= "0"@ && v.name =~= "Panel 0"@ && v.dtbo =~= "panel0.dtbo"@);
        assert(ps[0] == v);
    } else if n == 1 {
        reveal_strlit("1");
        reveal_strlit("Panel 1");
        reveal_strlit("panel1.dtbo");
        assert(v.id =~= "1"@ && v.name =~= "Panel 1"@ && v.dtbo =~= "panel1.dtbo"@);
        assert(ps[1] == v);
    } else if n == 2 {
        reveal_strlit("2");
        reveal_strlit("Panel 2");
        reveal_strlit("panel2.dtbo");
        assert(v.id =~= "2"@ && v.name =~= "Panel 2"@ && v.dtbo =~= "panel2.dtbo"@);
        assert(ps[2] == v);
    } else if n == 3 {
        reveal_strlit("3");
        reveal_strlit("Panel 3");
        reveal_strlit("panel3.dtbo");
        assert(v.id =~= "3"@ && v.name =~= "Panel 3"@ && v.dtbo =~= "panel3.dtbo"@);
        assert(ps[3] == v);
    } else if n == 4 {
        reveal_strlit("4");
        reveal_strlit("Panel 4");
        reveal_strlit("panel4.dtbo");
        assert(v.id =~= "4"@ && v.name =~= "Panel 4"@ && v.dtbo =~= "panel4.dtbo"@);
        assert(ps[4] == v);
    } else if n == 5 {
        reveal_strlit("5");
        reveal_strlit("Panel 5");
        reveal_strlit("panel5.dtbo");
        assert(v.id =~= "5"@ && v.name =~= "Panel 5"@ && v.dtbo =~= "panel5.dtbo"@);
        assert(ps[6] == v);
    } else {
        reveal_strlit("6");
        reveal_strlit("Panel 6");
        reveal_strlit("panel6.dtbo");
        assert(v.id =~= "6"@ && v.name =~= "Panel 6"@ && v.dtbo =~= "panel6.dtbo"@);
        assert(ps[7] == v);
    }
}

/// The panel is the clone of that number, by its identifier, its name and the
/// name of its file.
pub open spec fn is_clone(v: PanelView, n: nat) -> bool {
    &&& v.id == seq!['C'] + decimal(n)
    &&& v.dtbo == "clone_panel_"@ + decimal(n) + ".dtbo"@
    &&& starts(v.name, "Clone "@ + decimal(n) + seq![' '])
}

/// Each numbered clone has its number in its identifier, in its name and in
/// the name of its file.
pub proof fn lemma_numbered_clones(n: nat)
    requires
        1 <= n <= 10,
    ensures
        exists|i: int|
            0 <= i < panels_of("clone"@).len() && is_clone(#[trigger] panels_of("clone"@)[i], n),
{
    reveal_strlit("original");
    reveal_strlit("clone");
    assert("original"@.len() != "clone"@.len());
    lemma_clone(n);
    assert(is_clone(panels_of("clone"@)[n - 1], n));
}

proof fn lemma_clone(n: nat)
    requires
        1 <= n <= 10,
    ensures
        is_clone(clone_panels()[n - 1], n),
{
    reveal_strlit("clone_panel_");
    reveal_strlit(".dtbo");
    reveal_strlit("Clone ");
    let v = clone_panels()[n - 1];
    let p = "Clone "@ + decimal(n) + seq![' '];
    if n < 10 {
        lemma_decimal_step(0, n);
    } else {
        lemma_decimal_step(1, 0);
        lemma_decimal_step(0, 1);
        assert(decimal(10) =~= seq!['1', '0']);
    }
    if n == 1 {
        reveal_strlit("C1");
        reveal_strlit("Clone 1 (ST7703)");
        reveal_strlit("clone_panel_1.dtbo");
        assert("C1"@ =~= seq!['C'] + decimal(n));
        assert("clone_panel_1.dtbo"@ =~= "clone_panel_"@ + decimal(n) + ".dtbo"@);
        assert("Clone 1 (ST7703)"@.subrange(0, p.len() as int) =~= p);
    } else if n == 2 {
        reveal_strlit("C2");
        reveal_strlit("Clone 2 (ST7703)");
        reveal_strlit("clone_panel_2.dtbo");
        assert("C2"@ =~= seq!['C'] + decimal(n));
        assert("clone_panel_2.dtbo"@ =~= "clone_panel_"@ + decimal(n) + ".dtbo"@);
        assert("Clone 2 (ST7703)"@.subrange(0, p.len() as int) =~= p);
    } else if n == 3 {
        reveal_strlit("C3");
        reveal_strlit("Clone 3 (NV3051D)");
        reveal_strlit("clone_panel_3.dtbo");
        assert("C3"@ =~= seq!['C'] + decimal(n));
        assert("clone_panel_3.dtbo"@ =~= "clone_panel_"@ + decimal(n) + ".dtbo"@);
        assert("Clone 3 (NV3051D)"@.subrange(0, p.len() as int) =~= p);
    } else if n == 4 {
        reveal_strlit("C4");
        reveal_strlit("Clone 4 (NV3051D)");
        reveal_strlit("clone_panel_4.dtbo");
        assert("C4"@ =~= seq!['C'] + decimal(n));
        assert("clone_panel_4.dtbo"@ =~= "clone_panel_"@ + decimal(n) + ".dtbo"@);
        assert("Clone 4 (NV3051D)"@.subrange(0, p.len() as int) =~= p);
    } else if n == 5 {
        reveal_strlit("C5");
        reveal_strlit("Clone 5 (ST7703)");
        reveal_strlit("clone_panel_5.dtbo");
        assert("C5"@ =~= seq!['C'] + decimal(n));
        assert("clone_panel_5.dtbo"@ =~= "clone_panel_"@ + decimal(n) + ".dtbo"@);
        assert("Clone 5 (ST7703)"@.subrange(0, p.len() as int) =~= p);
    } else if n == 6 {
        reveal_strlit("C6");
        reveal_strlit("Clone 6 (NV3051D)");
        reveal_strlit("clone_panel_6.dtbo");
        assert("C6"@ =~= seq!['C'] + decimal(n));
        assert("clone_panel_6.dtbo"@ =~= "clone_panel_"@ + decimal(n) + ".dtbo"@);
        assert("Clone 6 (NV3051D)"@.subrange(0, p.len() as int) =~= p);
    } else if n == 7 {
        reveal_strlit("C7");
        reveal_strlit("Clone 7 (JD9365DA)");
        reveal_strlit("clone_panel_7.dtbo");
        assert("C7"@ =~= seq!['C'] + decimal(n));
        assert("clone_panel_7.dtbo"@ =~= "clone_panel_"@ + decimal(n) + ".dtbo"@);
        assert("Clone 7 (JD9365DA)"@.subrange(0, p.len() as int) =~= p);
    } else if n == 8 {
        reveal_strlit("C8");
        reveal_strlit("Clone 8 G80CA (ST7703)");
        reveal_strlit("clone_panel_8.dtbo");
        assert("C8"@ =~= seq!['C'] + decimal(n));
        assert("clone_panel_8.dtbo"@ =~= "clone_panel_"@ + decimal(n) + ".dtbo"@);
        assert("Clone 8 G80CA (ST7703)"@.subrange(0, p.len() as int) =~= p);
    } else if n == 9 {
        reveal_strlit("C9");
        reveal_strlit("Clone 9 (NV3051D)");
        reveal_strlit("clone_panel_9.dtbo");
        assert("C9"@ =~= seq!['C'] + decimal(n));
        assert("clone_panel_9.dtbo"@ =~= "clone_panel_"@ + decimal(n) + ".dtbo"@);
        assert("Clone 9 (NV3051D)"@.subrange(0, p.len() as int) =~= p);
    } else if n == 10 {
        reveal_strlit("C10");
        reveal_strlit("Clone 10 (ST7703)");
        reveal_strlit("clone_panel_10.dtbo");
        assert("C10"@ =~= seq!['C'] + decimal(n));
        assert("clone_panel_10.dtbo"@ =~= "clone_panel_"@ + decimal(n) + ".dtbo"@);
        assert("Clone 10 (ST7703)"@.subrange(0, p.len() as int) =~= p);
    }
}

/// There are panels for the original console and for its clones, and for no
/// other.
pub proof fn lemma_consoles(console: Seq<char>)
    ensures
        panels_of(console).len() > 0 <==> console == "original"@ || console == "clone"@,
        panels_of(console).len() == 0 || panels_of(console).len() == 12,
{
    assert(original_panels().len() == 12);
    assert(clone_panels().len() == 12);
}

} // verus!
