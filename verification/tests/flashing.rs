//! Writing images, and what goes wrong with it.

use archr_flasher::flash::{
    check_temp_space, compression_of, display_stage, flash_steps, read_update, removable_path,
    steps_after_failure, validate_device, CardSpeed, Compression, FlashStep, Platform, Update,
};
use archr_flasher::flash_job::{final_dtbo, is_stale, preload_list, FlashJob, JobState};
use archr_flasher::flash_linux::{self, helper_command, ScriptArgs};
use archr_flasher::flash_macos::{self, privileged_script};
use archr_flasher::flash_windows::{
    self, classify_open_error, classify_write_error, disk_number_in, drive_letters,
    extract_disk_number, generate_windows_config_script, lock_delay, wide,
};
use archr_flasher::flashwrite::{
    after_write, compare_hashes, conclude, exit_code, last_stage, pad, parse_args, round_up,
    short_read_text, verifying_text, writing_text, written_text, ImageReader, ImageWriter,
    CHUNK_BYTES,
};
use archr_flasher::panel_config::PanelConfig;
use archr_flasher::rawwrite_unix::{
    boot_partition_range, classify_helper_exit, last_wipe_offset, patch_message, BootPatch,
    FdHelperError, PatchAction, RawVerifier, RawWriter, CHUNK,
};
use std::collections::BTreeMap;

const ABC: &str = "ba7816bf8f01cfea414140de5dae2223b00361a396177a9cb410ff61f20015ad";

fn words(list: &[&str]) -> Vec<String> {
    list.iter().map(|s| s.to_string()).collect()
}

#[test]
fn devices_are_validated() {
    let fault = |p, d: &str, e, r: &str| validate_device(p, d, e, r).unwrap_err();
    assert_eq!(fault(Platform::Linux, "", true, "1"), "No device specified");
    assert_eq!(fault(Platform::Linux, "sdb", true, "1"), "Invalid device path: sdb");
    assert_eq!(
        fault(Platform::Linux, "/dev/sdb", false, "1"),
        "Device not found. Was the SD card removed?"
    );
    assert_eq!(
        fault(Platform::MacOs, "/dev/disk2", false, ""),
        "Device not found. Was the SD card removed?"
    );
    assert_eq!(
        fault(Platform::Linux, "/dev/sda", true, "0\n"),
        "/dev/sda is not a removable device"
    );
    assert!(validate_device(Platform::Linux, "/dev/sdb", true, "1\n").is_ok());
    assert!(validate_device(Platform::MacOs, "/dev/disk2", true, "").is_ok());
    let drive = "\\\\.\\PhysicalDrive";
    assert!(validate_device(Platform::Windows, "\\\\.\\PhysicalDrive2", false, "").is_ok());
    assert_eq!(
        fault(Platform::Windows, "/dev/sdb", false, ""),
        "Invalid device path: /dev/sdb"
    );
    assert_eq!(
        fault(Platform::Windows, drive, false, ""),
        format!("Invalid disk number in: {}", drive)
    );
    assert_eq!(
        fault(Platform::Windows, "\\\\.\\PhysicalDrive2x", false, ""),
        "Invalid disk number in: \\\\.\\PhysicalDrive2x"
    );
    assert_eq!(removable_path("/dev/mmcblk0"), "/sys/block/mmcblk0/removable");
}

#[test]
fn space_is_checked() {
    assert!(check_temp_space(10, 40).is_ok());
    let s = check_temp_space(10, 39).unwrap_err();
    assert_eq!((s.needed, s.available), (40, 39));
}

#[test]
fn progress_is_read() {
    assert!(matches!(read_update(" STAGE:verifying:42\n"), Update::Verifying(s) if s == "42"));
    assert!(matches!(read_update("STAGE:testing"), Update::Testing));
    assert!(matches!(read_update("STAGE:speed_slow:3"), Update::Speed(CardSpeed::Slow, 3)));
    assert!(matches!(read_update("STAGE:speed_medium:x"), Update::Speed(CardSpeed::Medium, 0)));
    assert!(matches!(read_update("STAGE:speed_ok:90"), Update::Speed(CardSpeed::Fast, 90)));
    assert!(matches!(read_update("STAGE:done"), Update::Finalizing));
    assert!(matches!(read_update("VERIFY_FAILED:bad"), Update::VerifyFailed(s) if s == "bad"));
    assert!(matches!(read_update("VERIFY_FAILED"), Update::VerifyFailed(s) if s == "VERIFY_FAILED"));
    assert!(matches!(
        read_update("18446744073709551615\n"),
        Update::Written(18446744073709551615)
    ));
    assert!(matches!(read_update("+7"), Update::Written(7)));
    assert!(matches!(read_update("18446744073709551616"), Update::Nothing));
    assert!(matches!(read_update("STAGE:writing"), Update::Nothing));
    assert!(matches!(read_update(""), Update::Nothing));
    let shown = |s: &str| display_stage(&read_update(s), 1000);
    assert_eq!(shown("STAGE:verifying:1"), Some(("verifying".to_string(), 90)));
    assert_eq!(shown("STAGE:testing"), Some(("testing_sd".to_string(), 55)));
    assert_eq!(shown("STAGE:speed_slow:1"), Some(("writing_safe".to_string(), 56)));
    assert_eq!(shown("STAGE:speed_ok:1"), Some(("writing".to_string(), 56)));
    assert_eq!(shown("STAGE:done"), Some(("finalizing".to_string(), 100)));
    assert_eq!(shown("VERIFY_FAILED"), Some(("verify_failed".to_string(), 0)));
    assert_eq!(shown("12"), Some(("writing".to_string(), 55)));
    assert_eq!(shown("?"), None);
    assert_eq!(display_stage(&read_update("12"), 0), None);
    assert_eq!(
        display_stage(&read_update("STAGE:done"), 0),
        Some(("finalizing".to_string(), 100))
    );
}

#[test]
fn compression_is_known_by_the_name() {
    assert!(compression_of("a.img.xz") == Compression::Xz);
    assert!(compression_of("a.img.gz") == Compression::Gz);
    assert!(compression_of("a.img") == Compression::Plain);
}

#[test]
fn steps_are_in_order() {
    let linux = flash_steps(Platform::Linux, Compression::Gz, true);
    assert!(
        linux
            == vec![
                FlashStep::Validate,
                FlashStep::CheckSpace,
                FlashStep::Decompress,
                FlashStep::WriteScript,
                FlashStep::CreateProgress,
                FlashStep::LocateHelper,
                FlashStep::StageHelper,
                FlashStep::RunHelper,
                FlashStep::StopPolling,
                FlashStep::RemoveScript,
                FlashStep::RemoveProgress,
                FlashStep::RemoveHelper,
                FlashStep::RemoveImage,
                FlashStep::Judge,
            ]
    );
    for p in [Platform::Linux, Platform::MacOs, Platform::Windows] {
        for c in [Compression::Plain, Compression::Xz, Compression::Gz] {
            let steps = flash_steps(p, c, false);
            assert!(steps[0] == FlashStep::Validate);
            assert!(steps[steps.len() - 1] == FlashStep::Judge);
            let made = steps.contains(&FlashStep::Decompress);
            assert_eq!(made, c != Compression::Plain);
            let removed = steps.contains(&FlashStep::RemoveImage);
            let kept = p == Platform::MacOs && c == Compression::Gz;
            assert_eq!(removed, made && !kept);
        }
    }
    assert!(steps_after_failure(FlashStep::RemoveScript, Compression::Gz).is_none());
    assert!(steps_after_failure(FlashStep::Validate, Compression::Gz).unwrap().is_empty());
    assert!(
        steps_after_failure(FlashStep::WriteCard, Compression::Gz).unwrap()
            == vec![FlashStep::StopPolling, FlashStep::RemoveImage, FlashStep::RemoveProgress]
    );
}

#[test]
fn the_linux_command_is_built() {
    let a = ScriptArgs {
        script: "s".to_string(),
        image: "i".to_string(),
        device: "d".to_string(),
        dtbo: "o".to_string(),
        variant: "v".to_string(),
        progress: "p".to_string(),
        helper: "h".to_string(),
        verify: true,
    };
    assert_eq!(
        helper_command(false, &a),
        words(&["pkexec", "bash", "s", "i", "d", "o", "v", "p", "h", "1"])
    );
    let a = ScriptArgs { verify: false, ..a };
    assert_eq!(
        helper_command(true, &a),
        words(&[
            "systemd-inhibit",
            "--what=idle:sleep:shutdown",
            "--who=ArchR Flasher",
            "--why=Writing SD card",
            "--mode=block",
            "pkexec",
            "bash",
            "s",
            "i",
            "d",
            "o",
            "v",
            "p",
            "h",
            "0",
        ])
    );
}

#[test]
fn linux_failures_are_classified() {
    let c = flash_linux::classify_failure;
    assert_eq!(c("Request dismissed"), "cancelled");
    assert_eq!(c("Error: Not authorized\n"), "cancelled");
    assert_eq!(c("x\n  dd failed:  no space \nScript error at line 3"), "dd error: no space");
    assert_eq!(
        c("Script error at line 12: cp x"),
        "dd error: script aborted at line 12: cp x"
    );
    assert_eq!(c("Verification failed"), "verify_failed");
    assert_eq!(
        c("Verification failed\r\n  expected: a\nother\n  got: b\n"),
        "verify_failed: expected: a\ngot: b"
    );
    assert_eq!(c("1\n2\n3\n4\n5\n"), "Flash failed: 2 | 3 | 4 | 5");
    assert_eq!(c("only"), "Flash failed: only");
    assert_eq!(c(""), "Flash failed: ");
}

#[test]
fn macos_scripts_are_quoted() {
    assert_eq!(
        privileged_script(&words(&["/tmp/a b", "it's"])),
        "do shell script \"bash '/tmp/a b' 'it'\\\\''s'\" with administrator privileges"
    );
    assert_eq!(
        privileged_script(&words(&["\"\\"])),
        r#"do shell script "bash '\\\"\\\\'" with administrator privileges"#
    );
}

#[test]
fn macos_failures_are_classified() {
    let c = flash_macos::classify_failure;
    assert_eq!(c("User canceled.", "/l"), "cancelled");
    assert_eq!(c("error (-128)", "/l"), "cancelled");
    assert_eq!(c("x err:dd_write rc=1", "/l"), "err:dd_write (log: /l)");
    assert_eq!(c("err:mount_boot", "/l"), "err:mount_boot (log: /l)");
    assert_eq!(c("Resource BUSY", "/l"), "err:device_busy");
    assert_eq!(c("other", "/l"), "Flash failed: other (log: /l)");
    assert_eq!(
        flash_macos::classify_failure_with("BUSY", "none", "/l"),
        "Flash failed: BUSY (log: /l)"
    );
}

#[test]
fn windows_names_are_wide() {
    assert_eq!(wide("aé"), vec![0x61, 0xe9, 0]);
    assert_eq!(wide("\u{1F600}"), vec![0xD83D, 0xDE00, 0]);
    assert_eq!(wide(""), vec![0]);
}

#[test]
fn disk_numbers_are_found() {
    assert_eq!(extract_disk_number("\\\\.\\PhysicalDrive12").unwrap(), 12);
    assert_eq!(extract_disk_number("\\\\.\\physicaldrive3x4").unwrap(), 3);
    assert_eq!(extract_disk_number("disk").unwrap_err(), "Not a physical drive path: disk");
    assert_eq!(
        extract_disk_number("PhysicalDrive").unwrap_err(),
        "No disk number in: PhysicalDrive"
    );
    assert_eq!(
        extract_disk_number("PhysicalDrive4294967296").unwrap_err(),
        "No disk number in: PhysicalDrive4294967296"
    );
    assert_eq!(disk_number_in("PHYSICALDRIVE7", "d").unwrap(), 7);
    assert_eq!(disk_number_in("PhysicalDrive7", "d").unwrap_err(), "Not a physical drive path: d");
}

#[test]
fn volumes_are_listed() {
    assert_eq!(drive_letters(0), Vec::<char>::new());
    assert_eq!(drive_letters(0b1101), vec!['A', 'C', 'D']);
    assert_eq!(drive_letters(1 << 25), vec!['Z']);
    assert_eq!(drive_letters(1 << 26), Vec::<char>::new());
    let delays: Vec<Option<u64>> = (0..8).map(lock_delay).collect();
    assert_eq!(
        delays,
        vec![
            Some(100),
            Some(200),
            Some(400),
            Some(800),
            Some(1600),
            Some(3200),
            Some(6400),
            None,
        ]
    );
}

#[test]
fn windows_errors_are_classified() {
    assert_eq!(classify_open_error(5, "d"), "err:device_busy (access denied opening d)");
    assert_eq!(classify_open_error(32, "d"), "err:device_busy (d in use)");
    assert_eq!(classify_open_error(19, "d"), "err:write_protected (d)");
    assert_eq!(classify_open_error(2, "d"), "err:open_device (d win 2)");
    assert_eq!(classify_write_error(19), "err:write_protected (lock switch)");
    assert_eq!(classify_write_error(5), "err:device_busy (write access denied)");
    assert_eq!(classify_write_error(1117), "err:media (write win 1117)");
    assert_eq!(flash_windows::config_failure(" no drive \r\n"), "Flash failed: no drive");
}

#[test]
fn the_windows_script_quotes_its_values() {
    let s = generate_windows_config_script("\\\\.\\PhysicalDrive1", "C:\\it's.dtbo", "soysauce");
    assert!(s.starts_with("$ErrorActionPreference = \"Stop\"\ntry {\n"));
    assert!(s.contains("    $Device = '\\\\.\\PhysicalDrive1'\n"));
    assert!(s.contains("    $CustomDTBO = 'C:\\it''s.dtbo'\n"));
    assert!(s.contains("    $Variant = 'soysauce'\n"));
    assert!(s.contains("$bootDrive = \"$($bootPart.DriveLetter):\\\"\n"));
    assert!(s.ends_with("} catch {\n    Write-Error $_.Exception.Message\n    exit 1\n}\n"));
}

#[test]
fn helper_arguments_are_parsed() {
    let a = parse_args(&words(&["img", "--no-verify", "dev", "prog", "more"])).unwrap();
    assert_eq!(a.image_path, "img");
    assert_eq!(a.device_path, "dev");
    assert_eq!(a.progress_path, "prog");
    assert!(!a.verify);
    assert!(parse_args(&words(&["--x", "img", "dev", "prog"])).unwrap().verify);
    assert!(parse_args(&words(&["img", "dev", "--no-verify"])).is_none());
    assert_eq!(exit_code(None), 2);
    assert_eq!(exit_code(Some(false)), 1);
    assert_eq!(exit_code(Some(true)), 0);
}

#[test]
fn chunks_are_padded_to_blocks() {
    assert_eq!(round_up(0, 512), 0);
    assert_eq!(round_up(1, 512), 512);
    assert_eq!(round_up(512, 512), 512);
    let size = CHUNK_BYTES as u64 + 3;
    let mut w = ImageWriter::new(size, true);
    assert_eq!(w.next_len(), CHUNK_BYTES);
    assert_eq!(w.take(&vec![7u8; CHUNK_BYTES]), CHUNK_BYTES);
    assert_eq!(w.next_len(), 3);
    assert_eq!(w.take(&[7, 7, 7]), 4096);
    assert_eq!(w.next_len(), 0);
    assert_eq!(w.written(), size);
    let mut w = ImageWriter::new(3, false);
    assert_eq!(w.take(b"abc"), 3);
    assert_eq!(w.finish(), ABC);
}

#[test]
fn syncs_come_every_sixty_four_megabytes() {
    let mut w = ImageWriter::new(1 << 40, false);
    let chunk = vec![0u8; CHUNK_BYTES];
    for i in 1..=33 {
        w.take(&chunk);
        assert_eq!(w.sync_due(), i % 16 == 0);
    }
}

#[test]
fn devices_are_read_back() {
    let mut w = ImageWriter::new(3, true);
    w.take(b"abc");
    let (hash, reader) = after_write(w, true);
    assert_eq!(hash, ABC);
    let mut reader = reader.unwrap();
    assert_eq!(reader.usable(4096), 3);
    reader.take(b"ab");
    assert_eq!(reader.done(), 2);
    assert!(reader.report(66));
    assert!(!reader.report(66));
    assert!(reader.report(67));
    reader.take(b"c");
    assert!(conclude(&hash, reader).is_ok());
    let mut w = ImageWriter::new(3, true);
    w.take(b"abc");
    assert!(after_write(w, false).1.is_none());
    let mut other = ImageReader::new(3);
    other.take(b"abd");
    let e = conclude(ABC, other).unwrap_err();
    assert!(e.starts_with(
        "Verifying write failed. Contents of SD card is different from what was written to it.\n  expected: ba7816bf"
    ));
    let mut short = ImageReader::new(3);
    short.take(b"a");
    assert_eq!(
        conclude(ABC, short).unwrap_err(),
        "verify: short read on device (1 of 3 bytes)"
    );
    assert_eq!(short_read_text(1, 3), "verify: short read on device (1 of 3 bytes)");
    assert_eq!(verifying_text(42), "STAGE:verifying:42");
    assert!(compare_hashes("a", "a").is_ok());
    assert_eq!(
        compare_hashes("a", "b").unwrap_err(),
        "Verifying write failed. Contents of SD card is different from what was written to it.\n  expected: a\n  got:      b"
    );
}

#[test]
fn windows_verdicts_have_their_own_words() {
    let reader = |data: &[u8]| {
        let mut r = ImageReader::new(3);
        r.take(data);
        r
    };
    assert!(flash_windows::conclude(ABC, reader(b"abc"), 3).is_ok());
    assert_eq!(flash_windows::conclude(ABC, reader(b"abd"), 3).unwrap_err(), "verify_failed");
    assert_eq!(
        flash_windows::conclude(ABC, reader(b"ab"), 3).unwrap_err(),
        "err:media (short read 2 of 3 bytes)"
    );
}

#[test]
fn raw_devices_are_written_in_sectors() {
    let mut w = RawWriter::new();
    let mut chunk = vec![7u8; CHUNK];
    assert_eq!(w.take(&mut chunk), Some(CHUNK as u64));
    assert_eq!(chunk, vec![7u8; CHUNK]);
    chunk.truncate(513);
    assert_eq!(w.take(&mut chunk), Some(CHUNK as u64 + 513));
    assert_eq!(chunk.len(), 1024);
    assert!(chunk[..513].iter().all(|b| *b == 7));
    assert!(chunk[513..].iter().all(|b| *b == 0));
    let mut empty = Vec::new();
    assert_eq!(RawWriter::new().take(&mut empty), None);
    assert!(empty.is_empty());
    let o = w.outcome(Some("warn".to_string()));
    assert_eq!(o.bytes, CHUNK as u64 + 513);
    assert_eq!(o.sync_warning, Some("warn".to_string()));
    assert_eq!(last_wipe_offset(None), None);
    assert_eq!(last_wipe_offset(Some(2 << 20)), None);
    assert_eq!(last_wipe_offset(Some((2 << 20) + 1)), Some((1 << 20) + 1));
    assert_eq!(last_wipe_offset(Some((3 << 20) + 512)), Some((2 << 20) + 512));
    assert_eq!(last_wipe_offset(Some(5 << 20)), Some(4 << 20));
}

#[test]
fn raw_devices_hold_the_image_and_zeros() {
    let mb = 1usize << 20;
    let size = 3 * mb + 512;
    let mut device = vec![0xffu8; size];
    device[..mb].fill(0);
    let last = last_wipe_offset(Some(size as u64)).unwrap() as usize;
    device[last..last + mb].fill(0);
    let mut chunk = vec![1u8; 500];
    assert_eq!(RawWriter::new().take(&mut chunk), Some(500));
    device[..chunk.len()].copy_from_slice(&chunk);
    assert!(device[..500].iter().all(|b| *b == 1));
    assert!(device[500..mb].iter().all(|b| *b == 0));
    assert!(device[mb..2 * mb + 512].iter().all(|b| *b == 0xff));
    assert!(device[2 * mb + 512..].iter().all(|b| *b == 0));
}

#[test]
fn the_end_is_announced_after_a_good_write_only() {
    assert_eq!(last_stage(None), Some("STAGE:done".to_string()));
    assert_eq!(last_stage(Some(&Ok(()))), Some("STAGE:done".to_string()));
    assert_eq!(last_stage(Some(&Err("bad".to_string()))), None);
    assert_eq!(writing_text(), "STAGE:writing");
    assert_eq!(written_text(12345), "12345");
    // What the writer announces is what the window reads.
    assert!(matches!(read_update(&written_text(12345)), Update::Written(12345)));
    assert!(matches!(read_update(&verifying_text(7)), Update::Verifying(t) if t == "7"));
    assert!(matches!(read_update(&last_stage(None).unwrap()), Update::Finalizing));
    assert!(matches!(read_update(&writing_text()), Update::Nothing));
}

#[test]
fn chunks_are_padded_with_zeros() {
    let mut buf = [9u8; 8];
    pad(&mut buf, 3, 6);
    assert_eq!(buf, [9, 9, 9, 0, 0, 0, 9, 9]);
    pad(&mut buf, 8, 8);
    assert_eq!(buf, [9, 9, 9, 0, 0, 0, 9, 9]);
}

#[test]
fn raw_devices_are_compared() {
    let mut v = RawVerifier::new(CHUNK as u64 + 10);
    assert_eq!(v.next(), Some((CHUNK, CHUNK)));
    let a = vec![1u8; CHUNK];
    assert_eq!(v.compare(&a, &a).unwrap(), 99);
    assert_eq!(v.next(), Some((10, 512)));
    assert_eq!(
        v.compare(&[0u8; 10], &[1u8; 10]).unwrap_err(),
        "verify_failed mismatch within 10 bytes at offset 4194304"
    );
    assert_eq!(v.compare(&[1u8; 10], &[1u8; 10]).unwrap(), 100);
    assert_eq!(v.next(), None);
}

#[test]
fn helpers_without_a_descriptor_are_classified() {
    let s = "no".to_string();
    assert!(matches!(classify_helper_exit(Some(0), s.clone()), FdHelperError::NoFd(t) if t == "no"));
    assert!(matches!(classify_helper_exit(Some(3), s.clone()), FdHelperError::Refused(3, _)));
    assert!(matches!(classify_helper_exit(None, s), FdHelperError::Refused(-1, _)));
}

#[test]
fn the_boot_partition_is_found() {
    let mut mbr = vec![0u8; 512];
    mbr[450] = 0x0c;
    mbr[454..458].copy_from_slice(&32768u32.to_le_bytes());
    mbr[458..462].copy_from_slice(&10u32.to_le_bytes());
    mbr[510] = 0x55;
    mbr[511] = 0xAA;
    assert_eq!(boot_partition_range(&mbr).unwrap(), (16777216, 16782336));
    let mut m = mbr.clone();
    m[510] = 0;
    assert_eq!(
        boot_partition_range(&m).unwrap_err(),
        "err:image_patch image has no MBR signature"
    );
    let mut m = mbr.clone();
    m[450] = 0x83;
    assert_eq!(
        boot_partition_range(&m).unwrap_err(),
        "err:image_patch first partition is not FAT32 (type 0x83)"
    );
    let mut m = mbr.clone();
    m[458] = 0;
    assert_eq!(
        boot_partition_range(&m).unwrap_err(),
        "err:image_patch empty boot partition entry"
    );
}

/// Runs a patch on files in memory.
fn run_patch(files: &mut BTreeMap<String, Vec<u8>>, variant: &str) -> bool {
    let mut patch = BootPatch::new(vec![1, 2, 3], variant);
    while let Some(action) = patch.action() {
        let mut bytes = Vec::new();
        match action {
            PatchAction::Write { path, data, create, .. } => {
                assert!(create || files.contains_key(&path));
                files.insert(path, data);
            }
            PatchAction::Read { path, optional, .. } => match files.get(&path) {
                Some(b) => bytes = b.clone(),
                None if optional => {}
                None => return false,
            },
            PatchAction::CreateDir { path, label } => {
                assert_eq!((path.as_str(), label.as_str()), ("overlays", "overlays dir"));
            }
            PatchAction::OpenDir { path, label } => {
                assert_eq!((path.as_str(), label.as_str()), ("extlinux", "extlinux dir"));
            }
            PatchAction::Unmount { label } => assert_eq!(label, "FAT"),
        }
        patch.proceed(bytes);
    }
    true
}

#[test]
fn the_boot_partition_is_patched() {
    let conf = "extlinux/extlinux.conf".to_string();
    let other = "extlinux/extlinux.conf.soysauce".to_string();
    let mut start: BTreeMap<String, Vec<u8>> = BTreeMap::new();
    start.insert(conf.clone(), b"old".to_vec());
    start.insert(other.clone(), b"new".to_vec());
    let mut files = start.clone();
    assert!(run_patch(&mut files, "original"));
    assert_eq!(files["overlays/mipi-panel.dtbo"], vec![1, 2, 3]);
    assert_eq!(files["variant"], b"original".to_vec());
    assert_eq!(files[&conf], b"old".to_vec());
    assert_eq!(files.len(), 4);
    let mut files = start.clone();
    assert!(run_patch(&mut files, "soysauce"));
    assert_eq!(files[&conf], b"new".to_vec());
    assert_eq!(files["extlinux/extlinux.conf.bak"], b"old".to_vec());
    assert_eq!(files[&other], b"new".to_vec());
    assert_eq!(files.len(), 5);
    let mut files = start.clone();
    files.remove(&other);
    assert!(run_patch(&mut files, "soysauce"));
    assert_eq!(files[&conf], b"old".to_vec());
    let mut files = start.clone();
    files.remove(&conf);
    assert!(!run_patch(&mut files, "soysauce"));
    assert_eq!(
        patch_message("writing ", "overlay", "no space"),
        "err:image_patch writing overlay: no space"
    );
}

fn job(custom: bool, compressed: bool, config: PanelConfig) -> FlashJob {
    FlashJob::new(custom, compressed, "panel0.dtbo", "panel0-x.dtbo", config)
}

fn name(s: &JobState) -> &'static str {
    match s {
        JobState::ReadCustom => "custom",
        JobState::Prepare => "prepare",
        JobState::ReadImage { .. } => "image",
        JobState::WriteOverlay(_) => "write",
        JobState::Flash => "flash",
        JobState::RemoveOverlay => "clean",
        JobState::RemoveImage => "drop",
        JobState::Done(Ok(_)) => "ok",
        JobState::Done(Err(_)) => "failed",
        JobState::Broken => "broken",
    }
}

fn trace(mut j: FlashJob, dtbo: &[u8]) -> Vec<&'static str> {
    let mut seen = Vec::new();
    loop {
        let n = name(j.state());
        seen.push(n);
        if n == "ok" || n == "failed" || n == "broken" {
            return seen;
        }
        if let JobState::WriteOverlay(v) = j.state() {
            assert_eq!(v, dtbo);
        }
        j.proceed(Ok(dtbo.to_vec()));
    }
}

#[test]
fn jobs_run_through() {
    let d = PanelConfig::default;
    assert_eq!(
        trace(job(false, true, d()), b"x"),
        vec!["prepare", "image", "write", "flash", "clean", "drop", "ok"]
    );
    assert_eq!(
        trace(job(false, false, d()), b"x"),
        vec!["image", "write", "flash", "clean", "ok"]
    );
    assert_eq!(
        trace(job(true, true, d()), b"x"),
        vec!["custom", "write", "prepare", "flash", "clean", "drop", "ok"]
    );
    assert_eq!(
        trace(job(true, false, d()), b"x"),
        vec!["custom", "write", "flash", "clean", "ok"]
    );
}

#[test]
fn jobs_fail_as_they_should() {
    let mut j = job(false, false, PanelConfig::default());
    assert_eq!(j.overlay_name(), "panel0-x.dtbo");
    j.proceed(Err("missing".to_string()));
    assert_eq!(name(j.state()), "image");
    assert_eq!(j.overlay_name(), "panel0.dtbo");
    j.proceed(Err("gone".to_string()));
    assert!(matches!(j.state(), JobState::Done(Err(e)) if e == "gone"));
    let mut j = FlashJob::new(false, false, "p", "p", PanelConfig::default());
    j.proceed(Err("missing".to_string()));
    assert!(matches!(j.state(), JobState::Done(Err(e)) if e == "missing"));
    let turned = PanelConfig {
        rotation: 90,
        invert_left_stick: false,
        invert_right_stick: false,
        hp_invert: false,
    };
    let mut j = job(true, false, turned);
    j.proceed(Ok(vec![0u8; 40]));
    assert!(matches!(j.state(), JobState::Done(Err(e)) if e == "Invalid DTBO: BadMagic"));
    // A card that was written stays written, whatever is left behind.
    let mut j = job(false, true, PanelConfig::default());
    for _ in 0..4 {
        j.proceed(Ok(vec![]));
    }
    assert_eq!(name(j.state()), "clean");
    j.proceed(Err("busy".to_string()));
    j.proceed(Err("busy".to_string()));
    assert_eq!(name(j.state()), "ok");
}

#[test]
fn a_broken_overlay_stops_a_job() {
    let turned = PanelConfig {
        rotation: 90,
        invert_left_stick: false,
        invert_right_stick: false,
        hp_invert: false,
    };
    let overlay = |words: &[u32]| {
        let n = 4 * words.len() as u32;
        let mut blob: Vec<u8> = Vec::new();
        for w in [0xd00dfeed, 56 + n, 56, 56 + n, 40, 17, 16, 0, 0, n] {
            blob.extend_from_slice(&w.to_be_bytes());
        }
        blob.extend_from_slice(&[0u8; 16]);
        for w in words {
            blob.extend_from_slice(&w.to_be_bytes());
        }
        blob
    };
    // A node that ends with the structure.
    let blob = overlay(&[1, 0]);
    let mut j = job(true, false, turned);
    j.proceed(Ok(blob.clone()));
    assert_eq!(name(j.state()), "broken");
    assert!(final_dtbo(blob.clone(), &turned).is_none());
    // Without settings it is taken as it is.
    assert_eq!(final_dtbo(blob.clone(), &PanelConfig::default()).unwrap().unwrap(), blob);
    // One without any node is refused.
    let mut j = job(true, false, turned);
    j.proceed(Ok(overlay(&[9])));
    assert!(matches!(j.state(), JobState::Done(Err(e)) if e == "DTBO has no root node"));
}

#[test]
fn stale_images_are_told() {
    assert!(is_stale(Some(2), Some(1)));
    assert!(!is_stale(Some(1), Some(1)));
    assert!(!is_stale(Some(1), None));
    assert!(!is_stale(None, Some(1)));
}

#[test]
fn preload_lists_are_extended() {
    assert_eq!(preload_list("", "/l.so"), Some("/l.so".to_string()));
    assert_eq!(preload_list("/a.so", "/l.so"), Some("/l.so:/a.so".to_string()));
    assert_eq!(preload_list("/x/libwayland-client.so.0", "/l.so"), None);
}
