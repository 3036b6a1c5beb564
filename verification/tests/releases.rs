//! Releases, cards, panels and logs.

use archr_flasher::diaglog::{log_header, result_line, run_lines, with_log_hint};
use archr_flasher::digest::{md5_hex, Hasher};
use archr_flasher::github::{
    cache_state, cached_hashed, check_image_hash, continue_fetch, download_ended, latest_release,
    parse_sha256, select_hash, select_image, start_fetch, verify_sha256, CacheState, Download,
    FetchState, GithubAsset, GithubRelease,
};
use archr_flasher::overlay::{
    boot_partitions, fallback_drives, is_archr_boot, read_overlay_status, vfat_mounts,
    volume_paths, OverlayFile,
};
use archr_flasher::panels::get_panels;
use archr_flasher::text::{
    decimal_of, eq_ignore_ascii_case, hex_of, lines, parse_number, replace, split,
    split_whitespace, trim, trim_start_matches,
};

const ABC: &str = "ba7816bf8f01cfea414140de5dae2223b00361a396177a9cb410ff61f20015ad";
const EMPTY: &str = "e3b0c44298fc1c149afbf4c8996fb92427ae41e4649b934ca495991b7852b855";

fn asset(name: &str, size: u64) -> GithubAsset {
    GithubAsset {
        name: name.to_string(),
        browser_download_url: format!("https://host/{}", name),
        size,
    }
}

fn release() -> GithubRelease {
    GithubRelease {
        tag_name: "v7".to_string(),
        assets: vec![
            asset("notes.txt", 1),
            asset("ArchR-R36S-clone-20260101.img.gz", 2),
            asset("Other.img.gz", 3),
            asset("ArchR-R36S.aarch64-20260101-original.img.xz", 4),
            asset("ArchR-R36S-2.img.gz", 5),
            asset("ArchR-R36S.aarch64-20260101-original.img.xz.sha256", 6),
        ],
    }
}

fn hashed(data: &[u8]) -> Hasher {
    let mut h = Hasher::new();
    h.update(data);
    h
}

#[test]
fn images_are_selected() {
    let r = release();
    assert_eq!(select_image(&r.assets, "clone").unwrap(), 1);
    assert_eq!(select_image(&r.assets, "original").unwrap(), 3);
    assert_eq!(select_image(&r.assets, "soysauce").unwrap(), 3);
    assert_eq!(
        select_image(&vec![asset("x.img", 1)], "clone").unwrap_err(),
        "No image found for 'clone' in latest release"
    );
    assert_eq!(select_hash(&r.assets, &r.assets[3].name), Some(5));
    assert_eq!(select_hash(&r.assets, &r.assets[1].name), None);
}

#[test]
fn digest_files_are_parsed() {
    assert_eq!(parse_sha256(&format!("  {}  image.img\n", ABC)), Some(ABC.to_string()));
    assert_eq!(parse_sha256(&ABC.to_uppercase()), Some(ABC.to_uppercase()));
    assert_eq!(parse_sha256(&ABC[1..]), None);
    assert_eq!(parse_sha256(&format!("{}g", &ABC[1..])), None);
    assert_eq!(parse_sha256(" \n"), None);
}

#[test]
fn releases_are_described() {
    let r = release();
    let info = latest_release(&r, "original", Some(format!("{} x", ABC))).unwrap();
    assert_eq!(info.version, "v7");
    assert_eq!(info.image_name, "ArchR-R36S.aarch64-20260101-original.img.xz");
    assert_eq!(
        info.download_url,
        "https://host/ArchR-R36S.aarch64-20260101-original.img.xz"
    );
    assert_eq!(info.size_bytes, 4);
    assert_eq!(info.expected_sha256, Some(ABC.to_string()));
    let info = latest_release(&r, "clone", Some("nonsense".to_string())).unwrap();
    assert_eq!(info.expected_sha256, None);
    assert_eq!(latest_release(&r, "clone", None).unwrap().size_bytes, 2);
    let none = GithubRelease { tag_name: "v".to_string(), assets: vec![] };
    assert_eq!(
        latest_release(&none, "a", None).unwrap_err(),
        "No image found for 'a' in latest release"
    );
}

#[test]
fn digests_are_computed() {
    assert_eq!(md5_hex(b"abc"), "900150983cd24fb0d6963f7d28e17f72");
    assert_eq!(md5_hex(b""), "d41d8cd98f00b204e9800998ecf8427e");
    assert_eq!(Hasher::new().finish(), EMPTY);
    let mut h = Hasher::new();
    h.update(b"a");
    h.update(b"bc");
    assert_eq!(h.finish(), ABC);
    assert!(verify_sha256(hashed(b"abc"), ABC));
    assert!(!verify_sha256(hashed(b"abd"), ABC));
    assert_eq!(check_image_hash(hashed(b"abc"), None).unwrap(), ABC);
    assert_eq!(check_image_hash(hashed(b"abc"), Some(ABC.to_string())).unwrap(), ABC);
    assert_eq!(
        check_image_hash(hashed(b"abc"), Some("x".to_string())).unwrap_err(),
        format!("SHA256 mismatch\nExpected: x\nGot: {}", ABC)
    );
}

#[test]
fn cached_copies_are_judged() {
    assert!(matches!(cache_state(None, 3, None), CacheState::Absent));
    assert!(matches!(cache_state(Some(2), 3, None), CacheState::Absent));
    assert!(matches!(cache_state(Some(3), 3, None), CacheState::Trusted));
    assert!(matches!(cache_state(Some(3), 3, Some(" \n".to_string())), CacheState::Absent));
    assert!(matches!(
        cache_state(Some(3), 3, Some(" ab\n".to_string())),
        CacheState::Check(h) if h == "ab"
    ));
}

#[test]
fn a_download_is_found_again() {
    let mut d = Download::new();
    assert_eq!(d.take(b"ab"), 2);
    assert_eq!(d.take(b"c"), 3);
    assert_eq!(d.received(), 3);
    let (hash, verdict) = d.finish(&None);
    assert!(verdict.is_ok());
    let s = start_fetch(cache_state(Some(3), 3, Some(hash)));
    let s = cached_hashed(s, Some(hashed(b"abc")));
    assert!(matches!(s, FetchState::Done(Ok(true))));
}

#[test]
fn fetching_goes_its_way() {
    assert!(matches!(start_fetch(CacheState::Trusted), FetchState::Done(Ok(true))));
    let s = start_fetch(CacheState::Check(ABC.to_string()));
    let s = cached_hashed(s, Some(hashed(b"other")));
    assert!(matches!(s, FetchState::RemoveCached));
    let s = continue_fetch(s, None);
    assert!(matches!(s, FetchState::Download));
    let unread = cached_hashed(FetchState::HashCached(ABC.to_string()), None);
    assert!(matches!(unread, FetchState::RemoveCached));
    let mut d = Download::new();
    d.take(b"abc");
    let s = download_ended(Ok(d), &Some(ABC.to_string()));
    assert!(matches!(&s, FetchState::SaveHash(h, None) if h == ABC));
    let s = continue_fetch(s, Some("ignored".to_string()));
    assert!(matches!(s, FetchState::Rename));
    assert!(matches!(
        continue_fetch(FetchState::Rename, Some("no".to_string())),
        FetchState::Done(Err(e)) if e == "no"
    ));
    assert!(matches!(continue_fetch(s, None), FetchState::Done(Ok(false))));
    assert!(matches!(
        download_ended(Err("offline".to_string()), &None),
        FetchState::Done(Err(e)) if e == "offline"
    ));
}

#[test]
fn corrupt_downloads_are_thrown_away() {
    let mut d = Download::new();
    d.take(b"abd");
    let s = download_ended(Ok(d), &Some(ABC.to_string()));
    let s = continue_fetch(s, None);
    let message = match &s {
        FetchState::Discard(m) => m.clone(),
        _ => panic!("kept"),
    };
    assert!(message.starts_with(&format!(
        "Download corrupted: SHA256 mismatch\nExpected: {}\nGot: ",
        ABC
    )));
    assert!(matches!(continue_fetch(s, None), FetchState::Done(Err(e)) if e == message));
}

#[test]
fn fat_mounts_are_found() {
    let table = "/dev/a / ext4 rw 0 0\n/dev/b /boot vfat rw 0 0\nshort line\n/dev/c /mnt vfat\n";
    assert_eq!(vfat_mounts(table), vec!["/boot", "/mnt"]);
    let paths = vec!["/boot".to_string(), "/mnt".to_string()];
    assert_eq!(boot_partitions(&paths, &vec![false, true]), vec!["/mnt"]);
}

#[test]
fn volumes_are_listed_once() {
    let v = volume_paths("C:\\\r\n\n D:\\ \nC:\\\n");
    assert_eq!(v, vec!["C:\\", "D:\\"]);
    let rest = fallback_drives(&v);
    assert_eq!(rest.len(), 24);
    assert_eq!(rest[0], "A:\\");
    assert_eq!(rest[2], "E:\\");
    assert_eq!(rest[23], "Z:\\");
}

#[test]
fn boot_partitions_have_their_marks() {
    assert!(is_archr_boot(true, true, true));
    assert!(!is_archr_boot(false, true, true));
    assert!(!is_archr_boot(true, false, true));
    assert!(!is_archr_boot(true, true, false));
}

#[test]
fn overlays_are_reported() {
    let s = read_overlay_status("/b", true, Some(" clone\n".to_string()), OverlayFile::Holds(b"abc".to_vec()));
    assert_eq!(s.boot_path, "/b");
    assert!(s.has_archr);
    assert_eq!(s.variant, Some("clone".to_string()));
    assert_eq!(s.current_overlay, Some("custom (90015098)".to_string()));
    assert_eq!(s.current_panel_name, Some("Custom overlay".to_string()));
    let s = read_overlay_status("/b", true, None, OverlayFile::Absent);
    assert!(s.has_archr && s.variant.is_none() && s.current_panel_name.is_none());
    assert_eq!(s.current_overlay, Some("default".to_string()));
    let s = read_overlay_status("/b", true, None, OverlayFile::Unreadable);
    assert!(s.has_archr && s.current_overlay.is_none() && s.current_panel_name.is_none());
    let s = read_overlay_status("/b", false, None, OverlayFile::Absent);
    assert!(!s.has_archr && s.current_overlay.is_none());
    let s = read_overlay_status("/b", false, Some("x".to_string()), OverlayFile::Holds(vec![]));
    assert!(!s.has_archr && s.variant.is_none() && s.current_panel_name.is_none());
    assert!(s.current_overlay.is_none());
}

#[test]
fn panels_are_listed() {
    let o = get_panels("original");
    assert_eq!(o.len(), 12);
    assert_eq!((o[0].id.as_str(), o[0].name.as_str()), ("0", "Panel 0"));
    assert_eq!(o[5].dtbo, "panel4-v22.dtbo");
    assert_eq!(o[11].id, "rgb20s");
    let c = get_panels("clone");
    assert_eq!(c.len(), 12);
    assert_eq!(c[6].name, "Clone 7 (JD9365DA)");
    assert_eq!(c[10].dtbo, "r36_max.dtbo");
    assert!(get_panels("other").is_empty());
    let mut all = o;
    all.extend(c);
    for i in 0..all.len() {
        assert!(all[i].dtbo.ends_with(".dtbo") && !all[i].dtbo.contains('/'));
        for j in i + 1..all.len() {
            assert_ne!(all[i].id, all[j].id);
            assert_ne!(all[i].name, all[j].name);
            assert_ne!(all[i].dtbo, all[j].dtbo);
        }
    }
}

#[test]
fn log_lines_are_written() {
    assert_eq!(with_log_hint("cancelled".to_string(), "/l"), "cancelled");
    assert_eq!(with_log_hint("err:media x".to_string(), "/l"), "err:media x (log: /l)");
    assert_eq!(
        log_header("1.2", "linux", 99),
        "archr-flasher 1.2 flash log (os: linux, started: 99 unix)\n"
    );
    assert_eq!(run_lines("d", "i", true), "device: d\nimage: i\nverify: true\n");
    assert_eq!(result_line(&Ok(())), "result: success\n");
    assert_eq!(result_line(&Err("e".to_string())), "result: e\n");
}

#[test]
fn texts_are_handled() {
    assert_eq!(decimal_of(0), "0");
    assert_eq!(decimal_of(u64::MAX), "18446744073709551615");
    assert_eq!(hex_of(0xc03), "c03");
    assert_eq!(hex_of(0), "0");
    assert_eq!(trim("\u{a0} a b\t\u{2003}"), "a b");
    assert_eq!(trim_start_matches("ababc", "ab"), "c");
    assert_eq!(split("a//b", '/'), vec!["a", "", "b"]);
    assert_eq!(split("", '/'), vec![""]);
    assert_eq!(lines("a\r\nb\n\nc"), vec!["a", "b", "", "c"]);
    assert!(lines("").is_empty());
    assert_eq!(split_whitespace("  a \t b\n"), vec!["a", "b"]);
    assert_eq!(replace("a'b'", '\'', "''"), "a''b''");
    assert_eq!(parse_number("+0012", 99), Some(12));
    assert_eq!(parse_number("100", 99), None);
    assert_eq!(parse_number("+", 99), None);
    assert_eq!(parse_number("-1", 99), None);
    assert_eq!(parse_number("", 99), None);
    assert!(eq_ignore_ascii_case("aZ1", "Az1"));
    assert!(!eq_ignore_ascii_case("é", "É"));
}
