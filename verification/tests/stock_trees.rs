//! Making overlays out of the device trees of stock firmware.

use archr_flasher::dtb_to_overlay::{
    axis_total, clock_khz, default_timing, extract_panel_description, generate_overlay,
    is_panel_readable, mode_line, read_init, read_panel, select_base, Axis, ModeSearch, PanelSize,
    PanelSource, Timing,
};
use archr_flasher::dtbo_builder::FdtBuilder;
use archr_flasher::panel_config;

struct Options {
    path: bool,
    sized: bool,
    timings: bool,
    missing: &'static str,
    init: bool,
}

fn usual() -> Options {
    Options { path: true, sized: true, timings: true, missing: "", init: true }
}

const TIMING: [(&str, u32); 9] = [
    ("clock-frequency", 26000499),
    ("hactive", 640),
    ("hfront-porch", 70),
    ("hsync-len", 20),
    ("hback-porch", 50),
    ("vactive", 480),
    ("vfront-porch", 10),
    ("vsync-len", 5),
    ("vback-porch", 15),
];

fn tree(o: &Options) -> Vec<u8> {
    let mut b = FdtBuilder::new();
    b.begin_node("");
    b.begin_node(if o.path { "dsi@ff450000" } else { "other" });
    b.begin_node("panel@0");
    if o.missing != "dsi,lanes" {
        b.prop_u32("dsi,lanes", 4);
    }
    if o.missing != "dsi,flags" {
        b.prop_u32("dsi,flags", 0x803);
    }
    b.prop_u32("dsi,format", 2);
    b.prop_u32("reset-delay-ms", 7);
    if o.sized {
        b.prop_u32("width-mm", 71);
        b.prop_u32("height-mm", 53);
    }
    if o.init {
        b.prop_bytes(
            "panel-init-sequence",
            &[0x15, 0, 2, 0xb0, 0x01, 0x05, 120, 1, 0x11, 0x39, 0, 9, 1],
        );
    }
    if o.timings {
        b.begin_node("display-timings-x");
        b.prop_u32("native-mode", 5);
        b.begin_node("timing0");
        for (name, value) in TIMING {
            if o.missing != name {
                b.prop_u32(name, value);
            }
        }
        b.prop_u32("phandle", 5);
        b.end_node();
        b.end_node();
    }
    b.end_node();
    b.end_node();
    b.end_node();
    b.finish()
}

fn source(o: &Options) -> Result<PanelSource, String> {
    let t = tree(o);
    assert!(is_panel_readable(&t));
    read_panel(&t)
}

fn fault(o: Options) -> String {
    match source(&o) {
        Err(e) => e,
        Ok(_) => panic!("no fault"),
    }
}

#[test]
fn a_panel_is_read() {
    let s = source(&usual()).unwrap();
    assert_eq!(s.delays, vec![50, 7, 50, 50, 20]);
    assert_eq!(s.format, "rgb666_packed");
    assert_eq!(s.lanes, 4);
    assert_eq!(s.flags, 0xc03);
    assert!(s.size == PanelSize::Known(71, 53));
    assert_eq!(s.timings.len(), 1);
    let t = s.timings[0];
    assert!(t.is_default);
    assert_eq!(t.clock_hz, 26000499);
    assert!(t.hor == Axis { active: 640, front_porch: 70, sync_len: 20, back_porch: 50 });
    assert!(t.ver == Axis { active: 480, front_porch: 10, sync_len: 5, back_porch: 15 });
    assert_eq!(s.init, vec!["I seq=b001", "I seq=11 wait=120"]);
    // The same panel elsewhere is found by its init sequence.
    assert!(source(&Options { path: false, ..usual() }).is_ok());
}

#[test]
fn what_is_missing_is_told() {
    assert_eq!(
        fault(Options { missing: "dsi,lanes", ..usual() }),
        "Missing property: dsi,lanes"
    );
    assert_eq!(
        fault(Options { missing: "dsi,flags", ..usual() }),
        "Missing property: dsi,flags"
    );
    for (name, _) in TIMING {
        assert_eq!(
            fault(Options { missing: name, ..usual() }),
            format!("Missing property: {}", name)
        );
    }
    assert_eq!(fault(Options { timings: false, ..usual() }), "No display-timings node found");
    assert_eq!(fault(Options { init: false, ..usual() }), "No panel-init-sequence property");
    assert_eq!(
        fault(Options { init: false, path: false, ..usual() }),
        "No MIPI panel node found. The DTB must contain a panel-init-sequence property."
    );
    match read_panel(&[1, 2, 3]) {
        Err(e) => assert_eq!(e, "Invalid DTB: BufferTooSmall"),
        Ok(_) => panic!("read"),
    }
    let mut b = FdtBuilder::new();
    b.begin_node("root");
    b.end_node();
    match read_panel(&b.finish()) {
        Err(e) => assert_eq!(e, "No root node"),
        Ok(_) => panic!("read"),
    }
}

#[test]
fn the_size_comes_from_the_resolution() {
    let s = source(&Options { sized: false, ..usual() }).unwrap();
    assert!(s.size == PanelSize::FromResolution(640, 480));
}

#[test]
fn circles_of_aliases_are_not_followed() {
    let mut b = FdtBuilder::new();
    b.begin_node("");
    b.begin_node("aliases");
    b.prop_str("/dsi@ff450000/panel@0", "a");
    b.prop_str("a", "/dsi@ff450000/panel@0");
    b.end_node();
    b.end_node();
    assert!(!is_panel_readable(&b.finish()));
}

#[test]
fn init_sequences_are_read() {
    assert!(read_init(&[]).is_empty());
    assert!(read_init(&[1, 2]).is_empty());
    assert_eq!(read_init(&[1, 0, 0]), vec!["I seq="]);
    assert_eq!(read_init(&[1, 5, 1, 0xff, 1, 0, 4, 1, 2]), vec!["I seq=ff wait=5"]);
}

#[test]
fn clocks_are_rounded() {
    assert_eq!(clock_khz(26000499), 26000);
    assert_eq!(clock_khz(26000500), 26001);
    assert_eq!(clock_khz(0), 0);
    let a = Axis { active: 1, front_porch: 2, sync_len: 3, back_porch: 4 };
    assert_eq!(axis_total(&a), Some(10));
    let a = Axis { active: u32::MAX, front_porch: 1, sync_len: 0, back_porch: 0 };
    assert_eq!(axis_total(&a), None);
}

fn timing(is_default: bool) -> Timing {
    Timing {
        clock_hz: 26000000,
        hor: Axis { active: 640, front_porch: 70, sync_len: 20, back_porch: 50 },
        ver: Axis { active: 480, front_porch: 10, sync_len: 5, back_porch: 15 },
        is_default,
    }
}

#[test]
fn the_last_default_counts() {
    assert_eq!(default_timing(&vec![]), None);
    assert_eq!(default_timing(&vec![timing(false)]), None);
    let list = vec![timing(true), timing(false), timing(true), timing(false)];
    assert_eq!(default_timing(&list), Some(2));
}

#[test]
fn the_base_mode_is_chosen() {
    let rates = vec![Some(60), Some(50), Some(75), Some(60)];
    assert_eq!(select_base(&rates, Some(55)), Some((0, true)));
    assert_eq!(select_base(&rates, Some(50)), Some((1, true)));
    assert_eq!(select_base(&rates, Some(90)), Some((2, false)));
    assert_eq!(select_base(&rates, None), Some((2, false)));
    assert_eq!(select_base(&vec![Some(7), Some(7)], Some(8)), Some((1, false)));
    assert_eq!(select_base(&vec![], Some(8)), None);
    // A rate that cannot be compared takes the place of the one before.
    assert_eq!(select_base(&vec![Some(9), None, Some(3)], Some(10)), Some((2, false)));
}

#[test]
fn candidates_come_in_order() {
    let mut s = ModeSearch::new(8, 100, 125);
    let mut seen = Vec::new();
    while let Some(x) = s.candidate() {
        seen.push(x);
        s.judge(None);
    }
    let mut wanted = Vec::new();
    for vt in 8..=10 {
        for c in [100, 110, 120] {
            wanted.push((c, vt));
        }
    }
    assert_eq!(seen, wanted);
    assert_eq!(s.best(), None);
    assert_eq!(ModeSearch::new(8, 100, 99).candidate(), None);
    assert_eq!(ModeSearch::new(8, 100, 100).candidate(), Some((100, 8)));
}

#[test]
fn the_first_smallest_deviation_wins() {
    let mut s = ModeSearch::new(8, 100, 125);
    let deviations =
        [None, Some(5), Some(3), Some(4), None, Some(3), Some(9), Some(2), Some(2)];
    for d in deviations {
        s.judge(d);
    }
    assert_eq!(s.candidate(), None);
    assert_eq!(s.best(), Some((110, 10)));
}

#[test]
fn mode_lines_are_written() {
    assert_eq!(
        mode_line(&timing(false), 26010, 790, 512, true),
        "M clock=26010 horizontal=640,70,30,50 vertical=480,10,7,15 default=1"
    );
    // A smaller total leaves the sync pulse alone.
    assert_eq!(
        mode_line(&timing(false), 26010, 7, 510, false),
        "M clock=26010 horizontal=640,70,20,50 vertical=480,10,5,15"
    );
}

#[test]
fn the_description_is_put_together() {
    let s = source(&usual()).unwrap();
    let modes = vec!["M one".to_string(), "M two".to_string()];
    assert_eq!(
        extract_panel_description(&s, (1, 2), &modes),
        vec![
            "G size=71,53 delays=50,7,50,50,20 format=rgb666_packed lanes=4 flags=0xc03",
            "M one",
            "M two",
            "I seq=b001",
            "I seq=11 wait=120",
        ]
    );
    let s = source(&Options { sized: false, ..usual() }).unwrap();
    assert_eq!(
        extract_panel_description(&s, (1, 2), &vec![])[0],
        "G size=1,2 delays=50,7,50,50,20 format=rgb666_packed lanes=4 flags=0xc03"
    );
}

#[test]
fn overlays_are_generated() {
    let modes = vec!["M one".to_string()];
    let out = generate_overlay(&tree(&usual()), (0, 0), &modes).unwrap().unwrap();
    let text = b"G size=71,53 delays=50,7,50,50,20 format=rgb666_packed lanes=4 flags=0xc03\0\
M one\0I seq=b001\0I seq=11 wait=120\0";
    assert_eq!(panel_config::extract_panel_description(&out).unwrap(), text.to_vec());
    let n = archr_flasher::blob::find(
        &out,
        "/fragment@0/__overlay__/dsi@ff450000/panel@0",
    )
    .unwrap();
    assert_eq!(
        archr_flasher::blob::property(&n, "compatible").unwrap(),
        &b"archr,generic-dsi\0".to_vec()
    );
    let bad = generate_overlay(&tree(&Options { init: false, ..usual() }), (0, 0), &modes);
    assert_eq!(bad.unwrap().unwrap_err(), "No panel-init-sequence property");
}
