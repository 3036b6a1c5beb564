//! Reading files out of the boot partition of an image.

use archr_flasher::fat::{
    file_bytes, find_entry, find_entry_upper, find_in_image, parse_boot_sector,
    read_dtbo_from_image, try_read_dtbo_from_image, FoundFile, Walk, BOOT_OFFSET,
};

const SECTOR: usize = 512;

fn boot_sector() -> Vec<u8> {
    let mut b = vec![0u8; SECTOR];
    b[11..13].copy_from_slice(&512u16.to_le_bytes());
    b[13] = 1;
    b[14..16].copy_from_slice(&1u16.to_le_bytes());
    b[16] = 1;
    b[36..40].copy_from_slice(&1u32.to_le_bytes());
    b[44..48].copy_from_slice(&2u32.to_le_bytes());
    b[510] = 0x55;
    b[511] = 0xAA;
    b
}

fn entry(name: &[u8; 11], attr: u8, cluster: u32, size: u32) -> Vec<u8> {
    let mut e = vec![0u8; 32];
    e[..11].copy_from_slice(name);
    e[11] = attr;
    e[20..22].copy_from_slice(&((cluster >> 16) as u16).to_le_bytes());
    e[26..28].copy_from_slice(&(cluster as u16).to_le_bytes());
    e[28..32].copy_from_slice(&size.to_le_bytes());
    e
}

/// The long-name entries for a name, last part first.
fn long_name(name: &str) -> Vec<u8> {
    let units: Vec<u16> = name.encode_utf16().collect();
    let parts: Vec<&[u16]> = units.chunks(13).collect();
    let mut out = Vec::new();
    for (i, part) in parts.iter().enumerate().rev() {
        let mut e = vec![0u8; 32];
        e[0] = (i + 1) as u8;
        if i + 1 == parts.len() {
            e[0] |= 0x40;
        }
        e[11] = 0x0F;
        let offsets = [1, 3, 5, 7, 9, 14, 16, 18, 20, 22, 24, 28, 30];
        for (k, off) in offsets.iter().enumerate() {
            let c = if k < part.len() {
                part[k]
            } else if k == part.len() {
                0
            } else {
                0xFFFF
            };
            e[*off..*off + 2].copy_from_slice(&c.to_le_bytes());
        }
        out.extend(e);
    }
    out
}

struct Disk {
    bytes: Vec<u8>,
}

impl Disk {
    fn new() -> Disk {
        let mut bytes = vec![0u8; BOOT_OFFSET as usize + 16 * SECTOR];
        let at = BOOT_OFFSET as usize;
        bytes[at..at + SECTOR].copy_from_slice(&boot_sector());
        Disk { bytes }
    }

    fn link(&mut self, cluster: usize, next: u32) {
        let at = BOOT_OFFSET as usize + SECTOR + 4 * cluster;
        self.bytes[at..at + 4].copy_from_slice(&next.to_le_bytes());
    }

    fn data(&mut self, cluster: usize, data: &[u8]) {
        let at = BOOT_OFFSET as usize + 2 * SECTOR + (cluster - 2) * SECTOR;
        self.bytes[at..at + data.len()].copy_from_slice(data);
    }
}

fn payload() -> Vec<u8> {
    (0..700u32).map(|i| (i % 251) as u8).collect()
}

/// `overlays/panel0.dtbo` and `overlays/soysauce/ss_v04.dtbo`.
fn disk() -> Disk {
    let mut d = Disk::new();
    let mut root = entry(b"\xE5VERLAYS   ", 0x20, 9, 0);
    root.extend(entry(b"OVERLAYS   ", 0x10, 3, 0));
    d.data(2, &root);
    d.link(2, 0x0FFF_FFFF);
    let mut dir = long_name("panel0.dtbo");
    dir.extend(entry(b"PANEL0~1DTB", 0x20, 4, 700));
    dir.extend(entry(b"SOYSAUCE   ", 0x10, 5, 0));
    dir.extend(entry(b"EMPTY   BIN", 0x20, 0, 0));
    d.data(3, &dir);
    d.link(3, 0xFFFF_FFF8);
    let p = payload();
    d.data(4, &p[..512]);
    d.link(4, 6);
    d.data(6, &p[512..]);
    d.link(6, 0x0FFF_FFF8);
    let mut sub = long_name("ss_v04.dtbo");
    sub.extend(entry(b"SS_V04~1DTB", 0x20, 7, 3));
    d.data(5, &sub);
    d.link(5, 0x0FFF_FFFF);
    d.data(7, b"abc");
    d.link(7, 0x0FFF_FFFF);
    d
}

fn read(d: &Disk, path: &str) -> Result<Vec<u8>, String> {
    try_read_dtbo_from_image(&d.bytes, path).unwrap()
}

#[test]
fn files_are_found() {
    let d = disk();
    assert_eq!(read(&d, "panel0.dtbo").unwrap(), payload());
    assert_eq!(read(&d, "PANEL0.DTBO").unwrap(), payload());
    assert_eq!(read(&d, "panel0~1.dtb").unwrap(), payload());
    assert_eq!(read(&d, "soysauce/ss_v04.dtbo").unwrap(), b"abc".to_vec());
    assert_eq!(read(&d, "empty.bin").unwrap(), Vec::<u8>::new());
    assert_eq!(read_dtbo_from_image(&d.bytes, "panel0.dtbo").unwrap(), payload());
}

#[test]
fn missing_files_are_reported() {
    let d = disk();
    assert_eq!(read(&d, "panel9.dtbo").unwrap_err(), "overlays/panel9.dtbo not found");
    assert_eq!(read(&d, "none/x.dtbo").unwrap_err(), "overlays/none not found");
    assert_eq!(read(&d, "soysauce/x.dtbo").unwrap_err(), "overlays/soysauce/x.dtbo not found");
    assert_eq!(read(&d, "panel0.dtbo/x").unwrap_err(), "panel0.dtbo is not a directory");
}

#[test]
fn a_root_without_overlays_is_reported() {
    let mut d = disk();
    d.data(2, &entry(b"OTHER      ", 0x10, 3, 0));
    d.data(2, &[0u8; 32]);
    assert_eq!(
        read(&d, "panel0.dtbo").unwrap_err(),
        "overlays/ directory not found in boot partition"
    );
    let mut d = disk();
    d.data(2, &entry(b"OVERLAYS   ", 0x20, 3, 0));
    assert_eq!(read(&d, "panel0.dtbo").unwrap_err(), "overlays is not a directory");
}

#[test]
fn images_that_are_too_short_are_reported() {
    let short = vec![0u8; BOOT_OFFSET as usize];
    assert_eq!(
        try_read_dtbo_from_image(&short, "x").unwrap().unwrap_err(),
        "Image too small — no BOOT partition"
    );
    let short = vec![0u8; BOOT_OFFSET as usize + 1];
    assert_eq!(
        try_read_dtbo_from_image(&short, "x").unwrap().unwrap_err(),
        "Read BPB error: failed to fill whole buffer"
    );
    let mut d = disk();
    d.bytes.truncate(BOOT_OFFSET as usize + SECTOR + 9);
    assert_eq!(read(&d, "x").unwrap_err(), "Data read: failed to fill whole buffer");
    let mut d = disk();
    // The root directory in the last cluster, and no table entry for it.
    let mut b = boot_sector();
    b[14..16].copy_from_slice(&0u16.to_le_bytes());
    b[16] = 0;
    b[44..48].copy_from_slice(&0x10000u32.to_le_bytes());
    let at = BOOT_OFFSET as usize;
    d.bytes[at..at + SECTOR].copy_from_slice(&b);
    assert_eq!(read(&d, "x").unwrap_err(), "Data read: failed to fill whole buffer");
    let mut d = disk();
    let mut b = boot_sector();
    // The table starts behind the end; the data with it, but no data is read.
    b[14..16].copy_from_slice(&0xffffu16.to_le_bytes());
    b[44..48].copy_from_slice(&1u32.to_le_bytes());
    d.bytes[at..at + SECTOR].copy_from_slice(&b);
    assert_eq!(
        read(&d, "x").unwrap_err(),
        "overlays/ directory not found in boot partition"
    );
}

#[test]
fn table_reads_behind_the_end_are_reported() {
    // With clusters of one byte the data of a far cluster is in the image,
    // and its table entry is not.
    let mut d = Disk::new();
    let mut b = boot_sector();
    b[11..13].copy_from_slice(&1u16.to_le_bytes());
    b[14..16].copy_from_slice(&0u16.to_le_bytes());
    b[16] = 0;
    b[44..48].copy_from_slice(&4000u32.to_le_bytes());
    let at = BOOT_OFFSET as usize;
    d.bytes[at..at + SECTOR].copy_from_slice(&b);
    assert_eq!(read(&d, "x").unwrap_err(), "FAT read: failed to fill whole buffer");
}

#[test]
fn boot_sectors_are_checked() {
    let g = parse_boot_sector(&boot_sector()).unwrap();
    assert_eq!(g.cluster_size, 512);
    assert_eq!(g.fat_start, BOOT_OFFSET + 512);
    assert_eq!(g.data_start, BOOT_OFFSET + 1024);
    assert_eq!(g.root_cluster, 2);
    let mut b = boot_sector();
    b[511] = 0;
    assert_eq!(parse_boot_sector(&b).unwrap_err(), "Invalid boot sector signature");
    for at in [12, 13, 36] {
        let mut b = boot_sector();
        b[at] = 0;
        assert_eq!(parse_boot_sector(&b).unwrap_err(), "Invalid FAT32 BPB parameters");
    }
}

#[test]
fn endless_chains_are_told() {
    let mut d = disk();
    d.link(4, 4);
    // Only a few clusters need to be followed to see that the chain is short
    // of an end, so this is told by the size of the table in the machine.
    let mut walk = Walk::new("panel0.dtbo", d.bytes.len() as u64);
    let mut steps = 0;
    while let Some(q) = walk.request() {
        let at = q.offset as usize;
        walk = walk.feed(&d.bytes[at..at + q.len]);
        steps += 1;
        if steps > 200 {
            break;
        }
    }
    assert!(walk.outcome().is_none());
}

#[test]
fn a_file_longer_than_its_clusters_cannot_be_read() {
    let mut d = disk();
    d.link(4, 0x0FFF_FFFF);
    assert!(try_read_dtbo_from_image(&d.bytes, "panel0.dtbo").is_none());
    match find_in_image(&d.bytes, "panel0.dtbo") {
        Some(Ok(f)) => {
            assert_eq!(f.data.len(), 512);
            assert_eq!(f.size, 700);
        }
        _ => panic!("not found"),
    }
    assert_eq!(file_bytes(FoundFile { data: vec![1, 2, 3], size: 2 }), vec![1, 2]);
}

#[test]
fn the_reader_asks_for_what_it_needs() {
    let d = disk();
    let mut walk = Walk::new("soysauce/ss_v04.dtbo", d.bytes.len() as u64);
    let mut asked = Vec::new();
    while let Some(q) = walk.request() {
        asked.push((q.offset - BOOT_OFFSET, q.len, q.context));
        let at = q.offset as usize;
        walk = walk.feed(&d.bytes[at..at + q.len]);
    }
    let wanted: Vec<(u64, usize, &str)> = vec![
        (0, 512, "Read BPB error: "),
        (1024, 512, "Data read: "),
        (520, 4, "FAT read: "),
        (1536, 512, "Data read: "),
        (524, 4, "FAT read: "),
        (2560, 512, "Data read: "),
        (532, 4, "FAT read: "),
        (3584, 512, "Data read: "),
        (540, 4, "FAT read: "),
    ];
    assert_eq!(asked.len(), wanted.len());
    for (a, w) in asked.iter().zip(wanted.iter()) {
        assert_eq!((a.0, a.1, a.2.as_str()), *w);
    }
    match walk.outcome() {
        Some(Ok(f)) => assert_eq!(file_bytes(f), b"abc".to_vec()),
        _ => panic!("no outcome"),
    }
}

#[test]
fn names_are_compared_without_case() {
    let mut dir = long_name("A long file Name.dtbo");
    dir.extend(entry(b"ALONGF~1DTB", 0x20, 0x12345, 9));
    dir.extend(entry(b"README     ", 0x21, 7, 1));
    let e = find_entry(&dir, "a LONG file name.DTBO").unwrap();
    assert_eq!((e.cluster, e.size, e.is_dir), (0x12345, 9, false));
    assert_eq!(find_entry(&dir, "readme").unwrap().cluster, 7);
    assert!(find_entry(&dir, "readme.txt").is_none());
    assert!(find_entry_upper(&dir, "README").is_some());
    // Entries behind the end mark do not count.
    let mut dir = vec![0u8; 32];
    dir.extend(entry(b"README     ", 0x20, 7, 1));
    assert!(find_entry(&dir, "readme").is_none());
    // The capital form of a letter may be longer than the letter.
    let dir = entry(b"STRA\xDFE     ".as_slice().try_into().unwrap(), 0x20, 7, 1);
    assert!(find_entry(&dir, "strasse").is_some());
}

#[test]
fn code_units_that_are_no_character_are_left_out() {
    let mut dir = long_name("ab\u{1F600}c");
    dir.extend(entry(b"X          ", 0x20, 3, 1));
    assert!(find_entry(&dir, "abc").is_some());
    assert!(find_entry(&dir, "ab\u{1F600}c").is_none());
}
