//! Building, reading and customizing panel overlays.

use archr_flasher::blob::{check_header, find, is_findable, is_readable, property, read_root};
use archr_flasher::dtbo_builder::FdtBuilder;
use archr_flasher::panel_config::{
    build_custom_dtbo, extract_config, extract_panel_description, try_build_custom_dtbo,
    PanelConfig,
};
use archr_flasher::tree::{BlobFault, DtNode};

fn config(rotation: u32, left: bool, right: bool, hp: bool) -> PanelConfig {
    PanelConfig {
        rotation,
        invert_left_stick: left,
        invert_right_stick: right,
        hp_invert: hp,
    }
}

/// An overlay with a panel, a joypad and an audio card.
fn sample() -> Vec<u8> {
    let mut b = FdtBuilder::new();
    b.begin_node("");
    b.begin_node("fragment@0");
    b.begin_node("__overlay__");
    b.prop_str("compatible", "archr,generic-dsi");
    b.prop_bytes("panel_description", b"G size=1,2\0");
    b.prop_u32("reset-gpios", 7);
    b.end_node();
    b.end_node();
    b.begin_node("fragment@1");
    b.prop_str("joypad-name", "pad");
    b.prop_u32("invert-absy", 1);
    b.end_node();
    b.begin_node("fragment@2");
    b.prop_u32_array("simple-audio-card,hp-det-gpio", &[9, 22, 0]);
    b.prop_empty("after");
    b.end_node();
    b.begin_node("__fixups__");
    b.prop_str_list("dsi", &["/fragment@0:target:0", "x"]);
    b.end_node();
    b.end_node();
    b.finish()
}

fn root(blob: &[u8]) -> DtNode {
    assert!(is_readable(blob));
    match read_root(blob) {
        Ok(Some(t)) => t,
        _ => panic!("no root"),
    }
}

fn names(t: &DtNode) -> Vec<String> {
    t.properties.iter().map(|p| p.name.clone()).collect()
}

#[test]
fn empty_tree_has_the_exact_bytes() {
    let mut b = FdtBuilder::new();
    b.begin_node("");
    b.prop_u32("a", 0x01020304);
    b.end_node();
    assert!(b.fits());
    let out = b.finish();
    let mut expected: Vec<u8> = Vec::new();
    for w in [0xd00dfeedu32, 90, 56, 88, 40, 17, 16, 0, 2, 32] {
        expected.extend_from_slice(&w.to_be_bytes());
    }
    expected.extend_from_slice(&[0u8; 16]);
    for w in [1u32, 0, 3, 4, 0, 0x01020304, 2, 9] {
        expected.extend_from_slice(&w.to_be_bytes());
    }
    expected.extend_from_slice(b"a\0");
    assert_eq!(out, expected);
}

#[test]
fn names_are_interned_once() {
    let mut b = FdtBuilder::new();
    b.begin_node("");
    b.prop_u32("rate", 1);
    b.prop_u32("mode", 2);
    b.prop_u32("rate", 3);
    b.end_node();
    let out = b.finish();
    assert!(out.ends_with(b"rate\0mode\0"));
    let t = root(&out);
    assert_eq!(names(&t), vec!["rate", "mode", "rate"]);
}

#[test]
fn interned_names_have_offsets_of_their_own() {
    let mut b = FdtBuilder::new();
    assert_eq!(b.intern_string("rate"), 0);
    assert_eq!(b.intern_string("mode"), 5);
    assert_eq!(b.intern_string("rate"), 0);
    assert_eq!(b.intern_string(""), 10);
    b.begin_node("");
    b.prop_u32("mode", 2);
    b.end_node();
    let out = b.finish();
    assert!(out.ends_with(b"rate\0mode\0\0"));
    assert_eq!(names(&root(&out)), vec!["mode"]);
    // Nothing else went into the structure.
    assert_eq!(out.len(), 56 + 32 + 11);
}

#[test]
fn what_is_written_is_read_back() {
    let t = root(&sample());
    assert_eq!(t.name, "");
    assert_eq!(t.children.len(), 4);
    assert_eq!(t.children[0].name, "fragment@0");
    let overlay = &t.children[0].children[0];
    assert_eq!(names(overlay), vec!["compatible", "panel_description", "reset-gpios"]);
    assert_eq!(property(overlay, "reset-gpios").unwrap(), &vec![0, 0, 0, 7]);
    assert_eq!(property(overlay, "compatible").unwrap(), &b"archr,generic-dsi\0".to_vec());
    assert!(property(overlay, "missing").is_none());
    assert_eq!(property(&t.children[2], "after").unwrap().len(), 0);
    assert_eq!(
        property(&t.children[3], "dsi").unwrap(),
        &b"/fragment@0:target:0\0x\0".to_vec()
    );
}

#[test]
fn headers_are_checked() {
    assert!(check_header(&[]) == Some(BlobFault::BufferTooSmall));
    assert!(check_header(&[0u8; 39]) == Some(BlobFault::BufferTooSmall));
    assert!(check_header(&[0u8; 40]) == Some(BlobFault::BadMagic));
    let mut blob = sample();
    assert!(check_header(&blob).is_none());
    blob.pop();
    assert!(check_header(&blob) == Some(BlobFault::BufferTooSmall));
    // A blob that its header refuses can still be handed to the readers.
    assert!(is_readable(&blob));
    assert_eq!(
        extract_panel_description(&blob).unwrap_err(),
        "Invalid DTBO: BufferTooSmall"
    );
    assert_eq!(extract_panel_description(&[0u8; 40]).unwrap_err(), "Invalid DTBO: BadMagic");
}

#[test]
fn broken_structures_are_not_readable() {
    let good = sample();
    assert!(is_readable(&good));
    // A token inside the first child node.
    let mut blob = good.clone();
    blob[83] = 9;
    assert!(!is_readable(&blob));
    // A structure block that reaches behind the blob.
    let mut blob = good.clone();
    blob[36] = 0x7f;
    assert!(!is_readable(&blob));
    // A property name that is not UTF-8.
    let mut b = FdtBuilder::new();
    b.begin_node("");
    b.prop_empty("abc");
    b.end_node();
    let mut blob = b.finish();
    assert!(is_readable(&blob));
    let at = blob.len() - 3;
    blob[at] = 0xff;
    assert!(!is_readable(&blob));
    assert!(try_build_custom_dtbo(&blob, &config(90, false, false, false)).is_none());
}

/// A blob with these words in its structure block.
fn raw(words: &[u32], strings: &[u8]) -> Vec<u8> {
    let structs = 4 * words.len() as u32;
    let total = 56 + structs + strings.len() as u32;
    let header = [
        0xd00dfeed,
        total,
        56,
        56 + structs,
        40,
        17,
        16,
        0,
        strings.len() as u32,
        structs,
    ];
    let mut blob: Vec<u8> = Vec::new();
    for w in header {
        blob.extend_from_slice(&w.to_be_bytes());
    }
    blob.extend_from_slice(&[0u8; 16]);
    for w in words {
        blob.extend_from_slice(&w.to_be_bytes());
    }
    blob.extend_from_slice(strings);
    blob
}

const A: u32 = 0x61000000;
const B: u32 = 0x62000000;

fn child_names(t: &DtNode) -> Vec<&str> {
    t.children.iter().map(|c| c.name.as_str()).collect()
}

#[test]
fn filler_before_the_end_of_a_node_is_skipped() {
    let t = root(&raw(&[1, 0, 1, A, 4, 4, 2, 4, 2, 9, 0], b""));
    assert_eq!(child_names(&t), ["a"]);
}

#[test]
fn filler_in_the_root_node_is_skipped() {
    // Before the properties, before the child nodes and between them.
    let blob = raw(&[4, 1, 0, 4, 3, 4, 0, 7, 4, 1, A, 2, 4, 4, 1, B, 2, 2, 9], b"x\0");
    let t = root(&blob);
    assert_eq!(names(&t), ["x"]);
    assert_eq!(t.properties[0].value, [0, 0, 0, 7]);
    assert_eq!(child_names(&t), ["a", "b"]);
    let out = build_custom_dtbo(&blob, &config(0, true, false, false)).unwrap();
    assert_eq!(child_names(&root(&out)), ["a", "b"]);
    // A search only sees the child nodes before the first filler.
    assert!(is_findable(&blob, "/a"));
    assert!(find(&blob, "/a").is_none());
    let blob = raw(&[1, 0, 1, A, 2, 4, 1, B, 2, 2, 9], b"");
    assert_eq!(child_names(&root(&blob)), ["a", "b"]);
    assert_eq!(find(&blob, "/a").unwrap().name, "a");
    assert!(find(&blob, "/b").is_none());
    // Nor does one past other child nodes.
    assert!(!is_readable(&raw(&[1, 0, 1, A, 4, 1, B, 2, 4, 1, B, 2, 2, 2, 9], b"")));
}

#[test]
fn filler_between_properties_of_the_root_node() {
    let blob = raw(&[1, 0, 3, 0, 0, 4, 3, 0, 2, 2, 9], b"x\0y\0");
    assert_eq!(names(&root(&blob)), ["x", "y"]);
    // The properties behind the filler hide the child nodes.
    let blob = raw(&[1, 0, 3, 0, 0, 4, 3, 0, 2, 1, A, 2, 2, 9], b"x\0y\0");
    let t = root(&blob);
    assert_eq!(names(&t), ["x", "y"]);
    assert!(t.children.is_empty());
    assert!(find(&blob, "/a").is_none());
}

#[test]
fn the_root_node_needs_no_end() {
    assert_eq!(child_names(&root(&raw(&[1, 0, 1, A, 2], b""))), ["a"]);
    assert!(!is_readable(&raw(&[1, 0], b"")));
    assert!(!is_readable(&raw(&[1, 0, 1, A], b"")));
    // One with a name of its own does.
    assert!(is_readable(&raw(&[1, A, 2], b"")));
    assert!(!is_readable(&raw(&[1, A, 9], b"")));
}

#[test]
fn a_name_that_is_no_text_ends_the_child_nodes() {
    let blob = raw(&[1, 0, 1, A, 2, 1, 0xff000000, 2, 1, B, 2, 2, 9], b"");
    assert_eq!(child_names(&root(&blob)), ["a"]);
    assert!(find(&blob, "/b").is_none());
}

#[test]
fn blobs_without_a_node_have_no_root() {
    for blob in [raw(&[], b""), raw(&[9], b""), raw(&[4, 9], b""), raw(&[1, 0xff000000, 2], b"")] {
        assert!(is_readable(&blob));
        assert_eq!(extract_panel_description(&blob).unwrap_err(), "DTBO has no root node");
        assert!(extract_config(&blob) == PanelConfig::default());
        assert!(is_findable(&blob, "/a"));
        assert!(find(&blob, "/a").is_none());
    }
    // Without a property the strings are not looked at.
    let mut blob = raw(&[1, 0, 2], b"");
    blob[32] = 0x7f;
    assert!(root(&blob).properties.is_empty());
    let mut blob = raw(&[1, 0, 3, 0, 0, 2], b"x\0");
    blob[32] = 0x7f;
    assert!(!is_readable(&blob));
}

#[test]
fn a_named_root_is_no_root() {
    let mut b = FdtBuilder::new();
    b.begin_node("root");
    b.end_node();
    let blob = b.finish();
    assert!(is_readable(&blob));
    assert_eq!(extract_panel_description(&blob).unwrap_err(), "DTBO has no root node");
    assert_eq!(
        build_custom_dtbo(&blob, &config(90, true, true, true)).unwrap_err(),
        "DTBO has no root node"
    );
    assert!(extract_config(&blob) == PanelConfig::default());
}

#[test]
fn paths_lead_to_nodes() {
    let blob = sample();
    assert!(is_findable(&blob, "/fragment@0/__overlay__"));
    let n = find(&blob, "/fragment@0/__overlay__").unwrap();
    assert_eq!(n.name, "__overlay__");
    // Without a unit address the first node of that name answers.
    assert_eq!(find(&blob, "/fragment/__overlay__").unwrap().name, "__overlay__");
    assert_eq!(find(&blob, "/fragment").unwrap().name, "fragment@0");
    assert!(find(&blob, "/fragment@9").is_none());
    assert_eq!(find(&blob, "/").unwrap().children.len(), 4);
}

#[test]
fn aliases_are_followed() {
    let mut b = FdtBuilder::new();
    b.begin_node("");
    b.begin_node("aliases");
    b.prop_str("/lcd", "/panel@0");
    b.prop_str("/round", "/round");
    b.end_node();
    b.begin_node("panel@0");
    b.prop_u32("x", 1);
    b.end_node();
    b.end_node();
    let blob = b.finish();
    assert!(is_findable(&blob, "/lcd"));
    assert_eq!(find(&blob, "/lcd").unwrap().name, "panel@0");
    assert!(!is_findable(&blob, "/round"));
    // A relative path passes over the root node, which must be whole then.
    let aliases = |filler: &[u32]| {
        let mut words = vec![1, 0, 1, 0x616c6961, 0x73657300, 3, 4, 0, 0x6c636400, 2];
        words.extend_from_slice(filler);
        words.extend_from_slice(&[1, B, 2, 2, 9]);
        raw(&words, b"/p\0")
    };
    assert!(is_findable(&aliases(&[]), "/p"));
    assert!(find(&aliases(&[]), "/p").is_none());
    assert!(!is_findable(&aliases(&[4]), "/p"));
}

#[test]
fn panel_description_is_found() {
    assert_eq!(extract_panel_description(&sample()).unwrap(), b"G size=1,2\0".to_vec());
    let mut b = FdtBuilder::new();
    b.begin_node("");
    b.end_node();
    assert_eq!(
        extract_panel_description(&b.finish()).unwrap_err(),
        "panel_description property not found in DTBO"
    );
}

#[test]
fn default_settings_are_the_default() {
    assert!(PanelConfig::default().is_default());
    assert!(!config(90, false, false, false).is_default());
    assert!(!config(0, true, false, false).is_default());
    assert!(!config(0, false, true, false).is_default());
    assert!(!config(0, false, false, true).is_default());
}

#[test]
fn settings_are_baked_in() {
    let out = build_custom_dtbo(&sample(), &config(270, true, true, true)).unwrap();
    let t = root(&out);
    let panel = &t.children[0].children[0];
    assert_eq!(
        names(panel),
        vec!["compatible", "panel_description", "reset-gpios", "rotation"]
    );
    assert_eq!(property(panel, "rotation").unwrap(), &vec![0, 0, 1, 14]);
    let pad = &t.children[1];
    assert_eq!(
        names(pad),
        vec!["joypad-name", "invert-absx", "invert-absy", "invert-absrx", "invert-absry"]
    );
    assert_eq!(property(pad, "invert-absy").unwrap(), &vec![0, 0, 0, 1]);
    let audio = &t.children[2];
    assert_eq!(names(audio), vec!["after", "simple-audio-card,hp-det-gpio"]);
    assert_eq!(
        property(audio, "simple-audio-card,hp-det-gpio").unwrap(),
        &vec![0, 0, 0, 9, 0, 0, 0, 22, 0, 0, 0, 1]
    );
    assert_eq!(names(&t.children[3]), vec!["dsi"]);
}

#[test]
fn settings_are_read_back() {
    for c in [
        config(90, true, false, false),
        config(180, false, true, false),
        config(0, true, true, false),
        config(270, false, false, false),
    ] {
        let out = build_custom_dtbo(&sample(), &c).unwrap();
        assert!(extract_config(&out) == c);
    }
    // The headphone setting is a flip, and cannot be seen afterwards.
    let out = build_custom_dtbo(&sample(), &config(90, true, true, true)).unwrap();
    assert!(extract_config(&out) == config(90, true, true, false));
}

#[test]
fn the_description_survives() {
    let out = build_custom_dtbo(&sample(), &config(90, true, true, true)).unwrap();
    assert_eq!(extract_panel_description(&out).unwrap(), b"G size=1,2\0".to_vec());
}

#[test]
fn flipping_twice_changes_nothing() {
    let flip = config(0, false, false, true);
    let once = build_custom_dtbo(&sample(), &flip).unwrap();
    let twice = build_custom_dtbo(&once, &flip).unwrap();
    let name = "simple-audio-card,hp-det-gpio";
    let before = root(&sample());
    let after = root(&twice);
    assert_ne!(
        property(&before.children[2], name).unwrap(),
        property(&root(&once).children[2], name).unwrap()
    );
    assert_eq!(
        property(&before.children[2], name).unwrap(),
        property(&after.children[2], name).unwrap()
    );
}

#[test]
fn every_path_survives() {
    let out = build_custom_dtbo(&sample(), &config(90, true, true, true)).unwrap();
    for path in ["/fragment@0/__overlay__", "/fragment@1", "/fragment@2", "/__fixups__"] {
        assert_eq!(find(&out, path).unwrap().name, find(&sample(), path).unwrap().name);
    }
}

#[test]
fn a_rotation_of_zero_keeps_the_rotation() {
    let turned = build_custom_dtbo(&sample(), &config(90, false, false, false)).unwrap();
    let again = build_custom_dtbo(&turned, &config(0, true, false, false)).unwrap();
    assert!(extract_config(&again) == config(90, true, false, false));
}

#[test]
fn a_joypad_is_known_by_its_compatible() {
    let build = |compatible: &[u8]| {
        let mut b = FdtBuilder::new();
        b.begin_node("");
        b.prop_bytes("compatible", compatible);
        b.end_node();
        let out = build_custom_dtbo(&b.finish(), &config(0, true, false, false)).unwrap();
        extract_config(&out).invert_left_stick
    };
    assert!(build(b"archr,joypad-x\0"));
    assert!(!build(b"archr,pad\0"));
    assert!(!build(b"joypad\xff\0"));
}

#[test]
fn the_same_settings_again_change_no_byte() {
    for cfg in [config(0, false, false, false), config(90, true, true, false)] {
        let once = build_custom_dtbo(&sample(), &cfg).unwrap();
        assert_eq!(build_custom_dtbo(&once, &cfg).unwrap(), once);
    }
    let flip = config(0, false, false, true);
    let once = build_custom_dtbo(&sample(), &flip).unwrap();
    assert_ne!(build_custom_dtbo(&once, &flip).unwrap(), once);
}

#[test]
fn a_short_gpio_is_kept() {
    let mut b = FdtBuilder::new();
    b.begin_node("");
    b.prop_u32_array("simple-audio-card,hp-det-gpio", &[1, 2]);
    b.end_node();
    let blob = b.finish();
    for flip in [false, true] {
        let out = build_custom_dtbo(&blob, &config(0, false, false, flip)).unwrap();
        let r = root(&out);
        assert_eq!(r.properties.len(), 1);
        assert_eq!(r.properties[0].name, "simple-audio-card,hp-det-gpio");
        assert_eq!(r.properties[0].value, [0, 0, 0, 1, 0, 0, 0, 2]);
    }
}

#[test]
fn a_short_rotation_does_not_count() {
    let mut b = FdtBuilder::new();
    b.begin_node("");
    b.prop_bytes("rotation", &[1, 2, 3]);
    b.begin_node("child");
    b.prop_u32("rotation", 5);
    b.end_node();
    b.end_node();
    assert_eq!(extract_config(&b.finish()).rotation, 5);
}

#[test]
fn the_last_customization_counts() {
    let last = config(180, false, true, false);
    let once = build_custom_dtbo(&sample(), &last).unwrap();
    let first = build_custom_dtbo(&sample(), &config(90, true, false, false)).unwrap();
    let twice = build_custom_dtbo(&first, &last).unwrap();
    assert!(extract_config(&once) == extract_config(&twice));
}
