//! Turning the device tree of a stock firmware into a panel overlay.
//!
//! The panel node is found and read into a [`PanelSource`]; the refresh
//! rates are worked out outside, over the choices made here; the lines that
//! describe the panel go into an overlay for the generic DSI panel driver.

use crate::blob::{
    find, findable, found, is_findable, is_readable, lemma_tree_of, property, read_root, root_of,
    value_of,
};
use crate::dtbo_builder::{
    blob, blob_len, lemma_blob_holds_tree, node_events, nodes_events, plain, prop_events,
    string_list, Event, FdtBuilder,
};
use crate::panel_config::{
    fault_message, fault_name, number_of, panel_description, property_u32, search, search_all,
};
use crate::panel_laws::lemma_ascii_name;
use crate::text::{
    decimal, decimal_of, hex_bytes, hex_of, hex_string, hexadecimal, join, join_all, joined,
    lemma_views_push, starts, starts_with, upto, views,
};
use crate::tree::{header_fault, no_nul, readable, DtNode, Node, Prop};
use vstd::prelude::*;
use vstd::slice::slice_subrange;
use vstd::utf8::*;

verus! {

// ---------------------------------------------------------------------------
// The panel node
// ---------------------------------------------------------------------------

/// The first node with the property `name`, the node before its children and
/// the children in order.
pub open spec fn first_with(t: Node, name: Seq<char>) -> Option<Node>
    decreases t, 0int,
{
    if value_of(t.props, name) is Some {
        Some(t)
    } else {
        first_with_in(t.children, name)
    }
}

/// The first node with the property `name` in a list of nodes.
pub open spec fn first_with_in(ts: Seq<Node>, name: Seq<char>) -> Option<Node>
    decreases ts, ts.len(),
{
    if ts.len() == 0 {
        None
    } else {
        match first_with(ts[0], name) {
            Some(n) => Some(n),
            None => first_with_in(ts.subrange(1, ts.len() as int), name),
        }
    }
}

/// The panel node of a device tree, or why there is none: at one of the usual
/// paths, or else the first node with an init sequence.
pub open spec fn panel_node(data: Seq<u8>) -> Result<Node, Seq<char>> {
    match found(data, "/dsi@ff450000/panel@0"@) {
        Some(n) => Ok(n),
        None => match found(data, "/dsi@fe060000/panel@0"@) {
            Some(n) => Ok(n),
            None => match root_of(data) {
                Some(root) => match first_with(root, "panel-init-sequence"@) {
                    Some(n) => Ok(n),
                    None => Err(
                        "No MIPI panel node found. The DTB must contain a panel-init-sequence property."@,
                    ),
                },
                None => Err("No root node"@),
            },
        },
    }
}

fn find_panel_recursive<'a>(t: &'a DtNode) -> (r: Option<&'a DtNode>)
    ensures
        match r {
            Some(n) => first_with(t@, "panel-init-sequence"@) == Some(n@),
            None => first_with(t@, "panel-init-sequence"@) is None,
        },
    decreases t,
{
    if property(t, "panel-init-sequence").is_some() {
        return Some(t);
    }
    let ghost name = "panel-init-sequence"@;
    let ghost kids = t@.children;
    let mut i: usize = 0;
    assert(kids.subrange(0, kids.len() as int) =~= kids);
    while i < t.children.len()
        invariant
            i <= t.children@.len(),
            kids == t@.children,
            name == "panel-init-sequence"@,
            first_with(t@, name) == first_with_in(
                kids.subrange(i as int, kids.len() as int),
                name,
            ),
        decreases t.children@.len() - i,
    {
        let ghost rest = kids.subrange(i as int, kids.len() as int);
        assert(rest[0] == t.children@[i as int]@);
        assert(rest.subrange(1, rest.len() as int) =~= kids.subrange(i + 1, kids.len() as int));
        match find_panel_recursive(&t.children[i]) {
            Some(n) => {
                return Some(n);
            },
            None => {},
        }
        i += 1;
    }
    None
}

// ---------------------------------------------------------------------------
// What the panel node says
// ---------------------------------------------------------------------------

/// One direction of a display mode, in pixels or lines.
#[derive(Debug, Clone, Copy, PartialEq, Eq, Structural)]
pub struct Axis {
    pub active: u32,
    pub front_porch: u32,
    pub sync_len: u32,
    pub back_porch: u32,
}

/// A display mode of the vendor.
#[derive(Debug, Clone, Copy, PartialEq, Eq, Structural)]
pub struct Timing {
    pub clock_hz: u32,
    pub hor: Axis,
    pub ver: Axis,
    pub is_default: bool,
}

/// The size of a panel: in millimetres, or to be worked out from its
/// resolution.
#[derive(Debug, Clone, Copy, PartialEq, Eq, Structural)]
pub enum PanelSize {
    Known(u32, u32),
    FromResolution(u32, u32),
}

/// What the panel node says.
pub struct PanelSource {
    pub delays: Vec<u32>,
    pub format: String,
    pub lanes: u32,
    pub flags: u32,
    pub size: PanelSize,
    pub timings: Vec<Timing>,
    pub init: Vec<String>,
}

#[verifier::ext_equal]
pub ghost struct SourceView {
    pub delays: Seq<u32>,
    pub format: Seq<char>,
    pub lanes: u32,
    pub flags: u32,
    pub size: PanelSize,
    pub timings: Seq<Timing>,
    pub init: Seq<Seq<char>>,
}

impl PanelSource {
    pub open spec fn view(&self) -> SourceView {
        SourceView {
            delays: self.delays@,
            format: self.format@,
            lanes: self.lanes,
            flags: self.flags,
            size: self.size,
            timings: self.timings@,
            init: views(self.init@),
        }
    }
}

/// The number in a property, or `default`.
pub open spec fn number_or(t: Node, name: Seq<char>, default: u32) -> u32 {
    match number_of(value_of(t.props, name)) {
        Some(n) => n,
        None => default,
    }
}

/// The number in a property, or a message.
pub open spec fn number_needed(t: Node, name: Seq<char>) -> Result<u32, Seq<char>> {
    match number_of(value_of(t.props, name)) {
        Some(n) => Ok(n),
        None => Err("Missing property: "@ + name),
    }
}

/// Reads a number, with a default.
pub fn prop_u32_or(node: &DtNode, name: &str, default: u32) -> (r: u32)
    ensures
        r == number_or(node@, name@, default),
{
    match property_u32(node, name) {
        Some(n) => n,
        None => default,
    }
}

/// Reads a number that has to be there.
pub fn prop_u32(node: &DtNode, name: &str) -> (r: Result<u32, String>)
    ensures
        match r {
            Ok(n) => number_needed(node@, name@) == Ok::<u32, Seq<char>>(n),
            Err(e) => number_needed(node@, name@) == Err::<u32, Seq<char>>(e@),
        },
{
    match property_u32(node, name) {
        Some(n) => Ok(n),
        None => Err(join("Missing property: ", name)),
    }
}

pub open spec fn axis_of(t: Node, a: Seq<char>, b: Seq<char>, c: Seq<char>, d: Seq<char>) -> Result<
    Axis,
    Seq<char>,
> {
    match (number_needed(t, a), number_needed(t, b), number_needed(t, c), number_needed(t, d)) {
        (Err(e), _, _, _) => Err(e),
        (_, Err(e), _, _) => Err(e),
        (_, _, Err(e), _) => Err(e),
        (_, _, _, Err(e)) => Err(e),
        (Ok(active), Ok(front_porch), Ok(sync_len), Ok(back_porch)) => Ok(
            Axis { active, front_porch, sync_len, back_porch },
        ),
    }
}

fn read_axis(t: &DtNode, a: &str, b: &str, c: &str, d: &str) -> (r: Result<Axis, String>)
    ensures
        match r {
            Ok(x) => axis_of(t@, a@, b@, c@, d@) == Ok::<Axis, Seq<char>>(x),
            Err(e) => axis_of(t@, a@, b@, c@, d@) == Err::<Axis, Seq<char>>(e@),
        },
{
    let active = match prop_u32(t, a) {
        Ok(n) => n,
        Err(e) => {
            return Err(e);
        },
    };
    let front_porch = match prop_u32(t, b) {
        Ok(n) => n,
        Err(e) => {
            return Err(e);
        },
    };
    let sync_len = match prop_u32(t, c) {
        Ok(n) => n,
        Err(e) => {
            return Err(e);
        },
    };
    let back_porch = match prop_u32(t, d) {
        Ok(n) => n,
        Err(e) => {
            return Err(e);
        },
    };
    Ok(Axis { active, front_porch, sync_len, back_porch })
}

/// A display mode, or what is missing in it. It is the default mode if its
/// handle is `native`.
pub open spec fn timing_of(t: Node, native: Option<u32>) -> Result<Timing, Seq<char>> {
    match number_needed(t, "clock-frequency"@) {
        Err(e) => Err(e),
        Ok(clock_hz) => match axis_of(
            t,
            "hactive"@,
            "hfront-porch"@,
            "hsync-len"@,
            "hback-porch"@,
        ) {
            Err(e) => Err(e),
            Ok(hor) => match axis_of(
                t,
                "vactive"@,
                "vfront-porch"@,
                "vsync-len"@,
                "vback-porch"@,
            ) {
                Err(e) => Err(e),
                Ok(ver) => Ok(
                    Timing {
                        clock_hz,
                        hor,
                        ver,
                        is_default: native == Some(number_or(t, "phandle"@, 0)),
                    },
                ),
            },
        },
    }
}

fn read_timing(t: &DtNode, native: Option<u32>) -> (r: Result<Timing, String>)
    ensures
        match r {
            Ok(x) => timing_of(t@, native) == Ok::<Timing, Seq<char>>(x),
            Err(e) => timing_of(t@, native) == Err::<Timing, Seq<char>>(e@),
        },
{
    let clock_hz = match prop_u32(t, "clock-frequency") {
        Ok(n) => n,
        Err(e) => {
            return Err(e);
        },
    };
    let hor = match read_axis(t, "hactive", "hfront-porch", "hsync-len", "hback-porch") {
        Ok(x) => x,
        Err(e) => {
            return Err(e);
        },
    };
    let ver = match read_axis(t, "vactive", "vfront-porch", "vsync-len", "vback-porch") {
        Ok(x) => x,
        Err(e) => {
            return Err(e);
        },
    };
    let phandle = prop_u32_or(t, "phandle", 0);
    let is_default = match native {
        Some(n) => n == phandle,
        None => false,
    };
    Ok(Timing { clock_hz, hor, ver, is_default })
}

/// The display modes, in order, or what is missing in the first faulty one.
pub open spec fn timings_of(ts: Seq<Node>, native: Option<u32>) -> Result<Seq<Timing>, Seq<char>>
    decreases ts.len(),
{
    if ts.len() == 0 {
        Ok(Seq::empty())
    } else {
        match timings_of(ts.drop_last(), native) {
            Err(e) => Err(e),
            Ok(before) => match timing_of(ts.last(), native) {
                Err(e) => Err(e),
                Ok(x) => Ok(before.push(x)),
            },
        }
    }
}

proof fn lemma_timings_prefix(ts: Seq<Node>, native: Option<u32>, i: int)
    requires
        0 <= i <= ts.len(),
        timings_of(ts.take(i), native) is Err,
    ensures
        timings_of(ts, native) == timings_of(ts.take(i), native),
    decreases ts.len() - i,
{
    if i == ts.len() {
        assert(ts.take(i) =~= ts);
    } else {
        assert(ts.take(i + 1).drop_last() =~= ts.take(i));
        lemma_timings_prefix(ts, native, i + 1);
    }
}

fn read_timings(ts: &Vec<DtNode>, native: Option<u32>, Ghost(all): Ghost<Seq<Node>>) -> (r: Result<
    Vec<Timing>,
    String,
>)
    requires
        all.len() == ts@.len(),
        forall|i: int| 0 <= i < all.len() ==> all[i] == (#[trigger] ts@[i])@,
    ensures
        match r {
            Ok(x) => timings_of(all, native) == Ok::<Seq<Timing>, Seq<char>>(x@),
            Err(e) => timings_of(all, native) == Err::<Seq<Timing>, Seq<char>>(e@),
        },
{
    let mut r: Vec<Timing> = Vec::new();
    let mut i: usize = 0;
    while i < ts.len()
        invariant
            i <= ts@.len(),
            all.len() == ts@.len(),
            forall|j: int| 0 <= j < all.len() ==> all[j] == (#[trigger] ts@[j])@,
            timings_of(all.take(i as int), native) == Ok::<Seq<Timing>, Seq<char>>(r@),
        decreases ts@.len() - i,
    {
        assert(all.take(i + 1).drop_last() =~= all.take(i as int));
        assert(all.take(i + 1).last() == ts@[i as int]@);
        match read_timing(&ts[i], native) {
            Ok(x) => {
                r.push(x);
            },
            Err(e) => {
                proof {
                    lemma_timings_prefix(all, native, i + 1);
                }
                return Err(e);
            },
        }
        i += 1;
    }
    assert(all.take(i as int) =~= all);
    Ok(r)
}

/// The first child whose name starts so.
pub open spec fn child_starting(ts: Seq<Node>, prefix: Seq<char>) -> Option<Node>
    decreases ts.len(),
{
    if ts.len() == 0 {
        None
    } else if starts(ts[0].name, prefix) {
        Some(ts[0])
    } else {
        child_starting(ts.skip(1), prefix)
    }
}

fn timings_child<'a>(t: &'a DtNode) -> (r: Option<&'a DtNode>)
    ensures
        match r {
            Some(n) => child_starting(t@.children, "display-timings"@) == Some(n@),
            None => child_starting(t@.children, "display-timings"@) is None,
        },
{
    let ghost kids = t@.children;
    let mut i: usize = 0;
    assert(kids.skip(0) =~= kids);
    while i < t.children.len()
        invariant
            i <= t.children@.len(),
            kids == t@.children,
            child_starting(kids, "display-timings"@) == child_starting(
                kids.skip(i as int),
                "display-timings"@,
            ),
        decreases t.children@.len() - i,
    {
        assert(kids.skip(i as int)[0] == t.children@[i as int]@);
        assert(kids.skip(i as int).skip(1) =~= kids.skip(i + 1));
        if starts_with(t.children[i].name.as_str(), "display-timings") {
            return Some(&t.children[i]);
        }
        i += 1;
    }
    None
}

/// The size of the panel: as it is given, or else its resolution in the first
/// display mode.
pub open spec fn size_of(t: Node) -> PanelSize {
    let w = number_or(t, "width-mm"@, 0);
    let h = number_or(t, "height-mm"@, 0);
    if w > 0 && h > 0 {
        PanelSize::Known(w, h)
    } else {
        match child_starting(t.children, "display-timings"@) {
            Some(ts) => if ts.children.len() > 0 {
                PanelSize::FromResolution(
                    number_or(ts.children[0], "hactive"@, 640),
                    number_or(ts.children[0], "vactive"@, 480),
                )
            } else {
                PanelSize::FromResolution(640, 480)
            },
            None => PanelSize::FromResolution(640, 480),
        }
    }
}

/// The size of the panel.
pub fn get_panel_dimensions(panel: &DtNode) -> (r: PanelSize)
    ensures
        r == size_of(panel@),
{
    let w = prop_u32_or(panel, "width-mm", 0);
    let h = prop_u32_or(panel, "height-mm", 0);
    if w > 0 && h > 0 {
        return PanelSize::Known(w, h);
    }
    match timings_child(panel) {
        Some(ts) => if ts.children.len() > 0 {
            assert(ts@.children[0] == ts.children@[0]@);
            PanelSize::FromResolution(
                prop_u32_or(&ts.children[0], "hactive", 640),
                prop_u32_or(&ts.children[0], "vactive", 480),
            )
        } else {
            PanelSize::FromResolution(640, 480)
        },
        None => PanelSize::FromResolution(640, 480),
    }
}

/// The name of a pixel format.
pub open spec fn format_name(n: u32) -> Seq<char> {
    if n == 1 {
        "rgb666"@
    } else if n == 2 {
        "rgb666_packed"@
    } else if n == 3 {
        "rgb565"@
    } else {
        "rgb888"@
    }
}

fn pixel_format(n: u32) -> (r: String)
    ensures
        r@ == format_name(n),
{
    if n == 1 {
        "rgb666".to_string()
    } else if n == 2 {
        "rgb666_packed".to_string()
    } else if n == 3 {
        "rgb565".to_string()
    } else {
        "rgb888".to_string()
    }
}

/// The line of one command of an init sequence.
pub open spec fn init_line(wait: u8, data: Seq<u8>) -> Seq<char> {
    "I seq="@ + hex_bytes(data) + (if wait > 0 {
        " wait="@ + decimal(wait as nat)
    } else {
        Seq::empty()
    })
}

/// The lines of an init sequence: commands of a kind, a wait, a length and
/// that many bytes. An incomplete command ends it.
pub open spec fn init_lines(b: Seq<u8>, pos: int) -> Seq<Seq<char>>
    decreases b.len() - pos,
{
    if pos < 0 || pos + 3 > b.len() || pos + 3 + b[pos + 2] > b.len() {
        Seq::empty()
    } else {
        let end = pos + 3 + b[pos + 2];
        seq![init_line(b[pos + 1], b.subrange(pos + 3, end))] + init_lines(b, end)
    }
}

/// Reads an init sequence.
pub fn read_init(b: &[u8]) -> (r: Vec<String>)
    ensures
        views(r@) == init_lines(b@, 0),
{
    let mut r: Vec<String> = Vec::new();
    let mut pos: usize = 0;
    assert(views(r@) =~= Seq::<Seq<char>>::empty());
    assert(views(r@) + init_lines(b@, 0) =~= init_lines(b@, 0));
    while b.len() - pos >= 3
        invariant
            pos <= b@.len(),
            init_lines(b@, 0) == views(r@) + init_lines(b@, pos as int),
        decreases b@.len() - pos,
    {
        let wait = b[pos + 1];
        let datalen = b[pos + 2] as usize;
        if datalen > b.len() - pos - 3 {
            assert(views(r@) + Seq::<Seq<char>>::empty() =~= views(r@));
            return r;
        }
        let end = pos + 3 + datalen;
        let hex = hex_string(slice_subrange(b, pos + 3, end));
        let mut line = join("I seq=", hex.as_str());
        if wait > 0 {
            let w = join(" wait=", decimal_of(wait as u64).as_str());
            line = join(line.as_str(), w.as_str());
        }
        let ghost text = init_line(wait, b@.subrange(pos + 3, end as int));
        assert(line@ =~= text);
        proof {
            lemma_views_push(r@, line);
            let rest = init_lines(b@, end as int);
            assert(views(r@) + (seq![text] + rest) =~= views(r@).push(text) + rest);
        }
        r.push(line);
        pos = end;
    }
    assert(views(r@) + Seq::<Seq<char>>::empty() =~= views(r@));
    r
}

/// What the panel node says, or what is missing in it.
pub open spec fn source_of(t: Node) -> Result<SourceView, Seq<char>> {
    match number_needed(t, "dsi,lanes"@) {
        Err(e) => Err(e),
        Ok(lanes) => match number_needed(t, "dsi,flags"@) {
            Err(e) => Err(e),
            Ok(flags) => match child_starting(t.children, "display-timings"@) {
                None => Err("No display-timings node found"@),
                Some(ts) => match timings_of(
                    ts.children,
                    number_of(value_of(ts.props, "native-mode"@)),
                ) {
                    Err(e) => Err(e),
                    Ok(timings) => match value_of(t.props, "panel-init-sequence"@) {
                        None => Err("No panel-init-sequence property"@),
                        Some(init) => Ok(
                            SourceView {
                                delays: seq![
                                    number_or(t, "prepare-delay-ms"@, 50),
                                    number_or(t, "reset-delay-ms"@, 50),
                                    number_or(t, "init-delay-ms"@, 50),
                                    number_or(t, "enable-delay-ms"@, 50),
                                    20u32,
                                ],
                                format: format_name(number_or(t, "dsi,format"@, 0)),
                                lanes,
                                flags: flags | 0x0400,
                                size: size_of(t),
                                timings,
                                init: init_lines(init, 0),
                            },
                        ),
                    },
                },
            },
        },
    }
}

/// Reads the panel node.
pub fn extract_panel_source(panel: &DtNode) -> (r: Result<PanelSource, String>)
    ensures
        match r {
            Ok(x) => source_of(panel@) == Ok::<SourceView, Seq<char>>(x@),
            Err(e) => source_of(panel@) == Err::<SourceView, Seq<char>>(e@),
        },
{
    let delays: Vec<u32> = vec![
        prop_u32_or(panel, "prepare-delay-ms", 50),
        prop_u32_or(panel, "reset-delay-ms", 50),
        prop_u32_or(panel, "init-delay-ms", 50),
        prop_u32_or(panel, "enable-delay-ms", 50),
        20,
    ];
    let format = pixel_format(prop_u32_or(panel, "dsi,format", 0));
    let lanes = match prop_u32(panel, "dsi,lanes") {
        Ok(n) => n,
        Err(e) => {
            return Err(e);
        },
    };
    let flags = match prop_u32(panel, "dsi,flags") {
        Ok(n) => n | 0x0400,
        Err(e) => {
            return Err(e);
        },
    };
    let size = get_panel_dimensions(panel);
    let ts = match timings_child(panel) {
        Some(ts) => ts,
        None => {
            return Err("No display-timings node found".to_string());
        },
    };
    let native = property_u32(ts, "native-mode");
    let timings = match read_timings(&ts.children, native, Ghost(ts@.children)) {
        Ok(x) => x,
        Err(e) => {
            return Err(e);
        },
    };
    let init = match property(panel, "panel-init-sequence") {
        Some(v) => read_init(v.as_slice()),
        None => {
            return Err("No panel-init-sequence property".to_string());
        },
    };
    let r = PanelSource { delays, format, lanes, flags, size, timings, init };
    assert(source_of(panel@)->Ok_0 =~= r@);
    Ok(r)
}

/// What a stock device tree says of its panel, or why nothing is found.
pub open spec fn panel_source(data: Seq<u8>) -> Result<SourceView, Seq<char>> {
    match header_fault(data) {
        Some(e) => Err("Invalid DTB: "@ + fault_name(e)),
        None => match panel_node(data) {
            Ok(t) => source_of(t),
            Err(e) => Err(e),
        },
    }
}

/// A device tree that can be read: the paths of the panel do not lead round
/// in a circle of aliases.
pub open spec fn panel_readable(data: Seq<u8>) -> bool {
    &&& readable(data)
    &&& header_fault(data) is None ==> findable(data, "/dsi@ff450000/panel@0"@) && findable(
        data,
        "/dsi@fe060000/panel@0"@,
    )
}

/// Whether the panel of a device tree can be read.
pub fn is_panel_readable(dtb_data: &[u8]) -> (r: bool)
    ensures
        r == panel_readable(dtb_data@),
{
    if !is_readable(dtb_data) {
        return false;
    }
    if crate::blob::check_header(dtb_data).is_some() {
        return true;
    }
    proof {
        reveal_strlit("/dsi@ff450000/panel@0");
        reveal_strlit("/dsi@fe060000/panel@0");
    }
    is_findable(dtb_data, "/dsi@ff450000/panel@0") && is_findable(dtb_data, "/dsi@fe060000/panel@0")
}

/// Reads the panel out of a stock device tree.
pub fn read_panel(dtb_data: &[u8]) -> (r: Result<PanelSource, String>)
    requires
        panel_readable(dtb_data@),
    ensures
        match r {
            Ok(x) => panel_source(dtb_data@) == Ok::<SourceView, Seq<char>>(x@),
            Err(e) => panel_source(dtb_data@) == Err::<SourceView, Seq<char>>(e@),
        },
{
    let root = match read_root(dtb_data) {
        Ok(root) => root,
        Err(e) => {
            return Err(fault_message("Invalid DTB: ", e));
        },
    };
    match find(dtb_data, "/dsi@ff450000/panel@0") {
        Some(n) => {
            return extract_panel_source(&n);
        },
        None => {},
    }
    match find(dtb_data, "/dsi@fe060000/panel@0") {
        Some(n) => {
            return extract_panel_source(&n);
        },
        None => {},
    }
    match root {
        Some(t) => match find_panel_recursive(&t) {
            Some(n) => extract_panel_source(n),
            None => Err(
                "No MIPI panel node found. The DTB must contain a panel-init-sequence property.".to_string(),
            ),
        },
        None => Err("No root node".to_string()),
    }
}

// ---------------------------------------------------------------------------
// Display modes
// ---------------------------------------------------------------------------

/// The pixels of a line, or the lines of a frame, with the blank ones.
pub open spec fn total(a: Axis) -> int {
    a.active + a.front_porch + a.sync_len + a.back_porch
}

/// The sum of an axis, if it is a `u32`.
pub fn axis_total(a: &Axis) -> (r: Option<u32>)
    ensures
        r == (if total(*a) <= u32::MAX {
            Some(total(*a) as u32)
        } else {
            None
        }),
{
    let sum: u64 = a.active as u64 + a.front_porch as u64 + a.sync_len as u64 + a.back_porch as u64;
    if sum <= 0xffff_ffff {
        Some(sum as u32)
    } else {
        None
    }
}

/// A clock in kilohertz, rounded.
pub fn clock_khz(clock_hz: u32) -> (r: u32)
    requires
        clock_hz + 500 <= u32::MAX,
    ensures
        r == (clock_hz + 500) / 1000,
{
    (clock_hz + 500) / 1000
}

/// The last of the modes that are the default.
pub open spec fn last_default(ts: Seq<Timing>) -> Option<int>
    decreases ts.len(),
{
    if ts.len() == 0 {
        None
    } else if ts.last().is_default {
        Some(ts.len() - 1)
    } else {
        last_default(ts.drop_last())
    }
}

/// The mode whose refresh rate is the default one.
pub fn default_timing(timings: &Vec<Timing>) -> (r: Option<usize>)
    ensures
        match r {
            Some(i) => last_default(timings@) == Some(i as int) && i < timings@.len(),
            None => last_default(timings@) is None,
        },
{
    let mut n = timings.len();
    assert(timings@.take(n as int) =~= timings@);
    while n > 0
        invariant
            n <= timings@.len(),
            last_default(timings@) == last_default(timings@.take(n as int)),
        decreases n,
    {
        assert(timings@.take(n as int).drop_last() =~= timings@.take(n - 1));
        n = n - 1;
        if timings[n].is_default {
            return Some(n);
        }
    }
    None
}

/// Refresh rates stand here as numbers with the same order. A rate that
/// cannot be compared is `None`: no rate reaches it, and it reaches none.
pub open spec fn reaches(rate: Option<u64>, target: Option<u64>) -> bool {
    rate matches Some(a) && target matches Some(b) && a >= b
}

/// `i` is the first of the lowest rates that reach the target.
pub open spec fn is_nearest(rates: Seq<Option<u64>>, target: Option<u64>, i: int) -> bool {
    &&& 0 <= i < rates.len()
    &&& reaches(rates[i], target)
    &&& forall|j: int|
        0 <= j < rates.len() && reaches(#[trigger] rates[j], target) ==> rates[i]->0 < rates[j]->0
            || rates[i]->0 == rates[j]->0 && i <= j
}

/// The last of the rates that none before exceeds.
pub open spec fn last_highest(rates: Seq<Option<u64>>) -> int
    decreases rates.len(),
{
    if rates.len() <= 1 {
        0
    } else {
        let m = last_highest(rates.drop_last());
        if rates[m] matches Some(a) && rates.last() matches Some(b) && a > b {
            m
        } else {
            rates.len() - 1
        }
    }
}

proof fn lemma_last_highest(rates: Seq<Option<u64>>)
    requires
        rates.len() > 0,
    ensures
        0 <= last_highest(rates) < rates.len(),
    decreases rates.len(),
{
    if rates.len() > 1 {
        lemma_last_highest(rates.drop_last());
    }
}

/// The mode to start from for a target rate: the nearest that reaches it,
/// or else the highest. The flag tells which.
pub fn select_base(rates: &Vec<Option<u64>>, target: Option<u64>) -> (r: Option<(usize, bool)>)
    ensures
        match r {
            Some((i, true)) => is_nearest(rates@, target, i as int),
            Some((i, false)) => {
                &&& rates@.len() > 0
                &&& i == last_highest(rates@)
                &&& forall|j: int| 0 <= j < rates@.len() ==> !reaches(#[trigger] rates@[j], target)
            },
            None => rates@.len() == 0,
        },
{
    let mut best: Option<(usize, u64)> = None;
    let mut i: usize = 0;
    while i < rates.len()
        invariant
            i <= rates@.len(),
            match best {
                Some((b, v)) => b < i && rates@[b as int] == Some(v) && is_nearest(
                    rates@.take(i as int),
                    target,
                    b as int,
                ),
                None => forall|j: int|
                    0 <= j < i ==> !reaches(#[trigger] rates@.take(i as int)[j], target),
            },
        decreases rates@.len() - i,
    {
        let ghost now = rates@.take(i as int);
        let ghost longer = rates@.take(i + 1);
        assert(forall|j: int| 0 <= j < i ==> #[trigger] longer[j] == now[j]);
        assert(longer[i as int] == rates@[i as int]);
        match (rates[i], target) {
            (Some(a), Some(t)) => {
                if a >= t {
                    let better = match best {
                        Some((_, v)) => a < v,
                        None => true,
                    };
                    if better {
                        best = Some((i, a));
                    }
                }
            },
            _ => {},
        }
        i += 1;
    }
    assert(rates@.take(i as int) =~= rates@);
    match best {
        Some((b, _)) => {
            return Some((b, true));
        },
        None => {},
    }
    if rates.len() == 0 {
        return None;
    }
    assert forall|j: int| 0 <= j < rates@.len() implies !reaches(#[trigger] rates@[j], target) by {
        assert(rates@.take(i as int)[j] == rates@[j]);
    }
    let mut m: usize = 0;
    let mut k: usize = 1;
    while k < rates.len()
        invariant
            1 <= k <= rates@.len(),
            m < k,
            m == last_highest(rates@.take(k as int)),
        decreases rates@.len() - k,
    {
        assert(rates@.take(k + 1).drop_last() =~= rates@.take(k as int));
        let keep = match (rates[m], rates[k]) {
            (Some(a), Some(b)) => a > b,
            _ => false,
        };
        if !keep {
            m = k;
        }
        k += 1;
    }
    assert(rates@.take(k as int) =~= rates@);
    Some((m, false))
}

/// The most lines a mode may be stretched to.
pub open spec fn stretched(vtotal: u32) -> int {
    if vtotal * 5 / 4 <= u32::MAX {
        vtotal * 5 / 4
    } else {
        u32::MAX as int
    }
}

/// The clocks and line counts to try, from one on: the clocks in steps of ten
/// up to `last`, for each line count up to `lines`.
pub open spec fn grid(first: u32, last: u32, lines: int, c: int, vt: int) -> Seq<(u32, u32)>
    decreases lines + 1 - vt, last + 10 - c,
{
    if vt > lines {
        Seq::empty()
    } else if c > last {
        grid(first, last, lines, first as int, vt + 1)
    } else {
        seq![(c as u32, vt as u32)] + grid(first, last, lines, c + 10, vt)
    }
}

/// The best of the candidates that were judged: the first with the smallest
/// deviation. A candidate without one is out of the question.
pub open spec fn best_of(judged: Seq<((u32, u32), Option<u64>)>) -> Option<((u32, u32), u64)>
    decreases judged.len(),
{
    if judged.len() == 0 {
        None
    } else {
        let before = best_of(judged.drop_last());
        match judged.last().1 {
            None => before,
            Some(d) => if before matches Some(b) && b.1 <= d {
                before
            } else {
                Some((judged.last().0, d))
            },
        }
    }
}

/// No candidate deviates less than the best, and none before it as little.
pub proof fn lemma_best_is_first_smallest(judged: Seq<((u32, u32), Option<u64>)>)
    ensures
        match best_of(judged) {
            None => forall|j: int| 0 <= j < judged.len() ==> (#[trigger] judged[j]).1 is None,
            Some((x, d)) => exists|i: int|
                #![trigger judged[i]]
                0 <= i < judged.len() && judged[i] == (x, Some(d)) && forall|j: int|
                    0 <= j < judged.len() && (#[trigger] judged[j]).1 is Some ==> d
                        <= judged[j].1->0 && (j < i ==> d < judged[j].1->0),
        },
    decreases judged.len(),
{
    if judged.len() > 0 {
        let pre = judged.drop_last();
        let n = pre.len() as int;
        lemma_best_is_first_smallest(pre);
        assert(forall|j: int| 0 <= j < n ==> #[trigger] judged[j] == pre[j]);
        match best_of(pre) {
            None => {
                if judged[n].1 is Some {
                    assert(best_of(judged) == Some((judged[n].0, judged[n].1->0)));
                    assert(judged[n] == (judged[n].0, Some(judged[n].1->0)));
                }
            },
            Some((x, d)) => {
                let i = choose|i: int|
                    #![trigger pre[i]]
                    0 <= i < pre.len() && pre[i] == (x, Some(d)) && forall|j: int|
                        0 <= j < pre.len() && (#[trigger] pre[j]).1 is Some ==> d <= pre[j].1->0 && (
                        j < i ==> d < pre[j].1->0);
                assert(judged[i] == (x, Some(d)));
                assert forall|j: int| 0 <= j < n && (#[trigger] judged[j]).1 is Some implies d
                    <= judged[j].1->0 && (j < i ==> d < judged[j].1->0) by {
                    assert(pre[j] == judged[j]);
                }
                if judged[n].1 is Some && judged[n].1->0 < d {
                    assert(best_of(judged) == Some((judged[n].0, judged[n].1->0)));
                    assert(judged[n] == (judged[n].0, Some(judged[n].1->0)));
                } else {
                    assert(best_of(judged) == Some((x, d)));
                }
            },
        }
    }
}

/// The search for the clock and line count that come nearest to a rate. The
/// candidates are handed out one by one, and their deviations taken.
pub struct ModeSearch {
    first: u32,
    last: u32,
    lines: u32,
    c: u64,
    vt: u64,
    best: Option<((u32, u32), u64)>,
    judged: Ghost<Seq<((u32, u32), Option<u64>)>>,
}

impl ModeSearch {
    pub closed spec fn wf(&self) -> bool {
        &&& self.best == best_of(self.judged@)
        &&& self.c <= self.last + 10
        &&& self.vt <= self.lines + 1
        &&& self.vt > self.lines || self.c <= self.last
    }

    /// The candidates that were judged, in order.
    pub closed spec fn judged(&self) -> Seq<((u32, u32), Option<u64>)> {
        self.judged@
    }

    /// The candidates that are left, in order.
    pub closed spec fn ahead(&self) -> Seq<(u32, u32)> {
        grid(self.first, self.last, self.lines as int, self.c as int, self.vt as int)
    }

    /// A search from `vtotal` lines and the clock `clock` on, to `c_end`.
    pub fn new(vtotal: u32, clock: u32, c_end: u32) -> (r: Self)
        ensures
            r.wf(),
            r.judged() == Seq::<((u32, u32), Option<u64>)>::empty(),
            r.ahead() == grid(clock, c_end, stretched(vtotal), clock as int, vtotal as int),
    {
        let wide: u64 = vtotal as u64 * 5 / 4;
        let lines: u32 = if wide <= 0xffff_ffff {
            wide as u32
        } else {
            0xffff_ffff
        };
        let mut r = ModeSearch {
            first: clock,
            last: c_end,
            lines,
            c: clock as u64,
            vt: vtotal as u64,
            best: None,
            judged: Ghost(Seq::empty()),
        };
        if clock > c_end {
            proof {
                lemma_grid_empty(clock, c_end, lines as int, vtotal as int);
                lemma_grid_empty(clock, c_end, lines as int, lines + 1);
            }
            r.vt = lines as u64 + 1;
            r.c = 0;
            assert(grid(clock, c_end, lines as int, 0, lines + 1) =~= Seq::<(u32, u32)>::empty());
        }
        r
    }

    /// The clock and the line count to judge next.
    pub fn candidate(&self) -> (r: Option<(u32, u32)>)
        requires
            self.wf(),
        ensures
            r == (if self.ahead().len() > 0 {
                Some(self.ahead()[0])
            } else {
                None
            }),
    {
        if self.vt > self.lines as u64 {
            None
        } else {
            assert(self.ahead()[0] == (self.c as u32, self.vt as u32));
            Some((self.c as u32, self.vt as u32))
        }
    }

    /// Takes the deviation of the candidate.
    pub fn judge(&mut self, deviation: Option<u64>)
        requires
            old(self).wf(),
            old(self).ahead().len() > 0,
        ensures
            final(self).wf(),
            final(self).judged() == old(self).judged().push((old(self).ahead()[0], deviation)),
            final(self).ahead() == old(self).ahead().skip(1),
    {
        let x = (self.c as u32, self.vt as u32);
        let ghost before = self.judged@;
        let ghost left = self.ahead();
        assert(left[0] == x);
        match deviation {
            Some(d) => {
                let better = match self.best {
                    Some((_, b)) => d < b,
                    None => true,
                };
                if better {
                    self.best = Some((x, d));
                }
            },
            None => {},
        }
        proof {
            assert(before.push((x, deviation)).drop_last() =~= before);
            self.judged@ = before.push((x, deviation));
            assert(left.skip(1) =~= grid(
                self.first,
                self.last,
                self.lines as int,
                self.c + 10,
                self.vt as int,
            ));
        }
        self.c = self.c + 10;
        if self.c > self.last as u64 {
            self.vt = self.vt + 1;
            self.c = self.first as u64;
            if self.first > self.last {
                proof {
                    lemma_grid_empty(self.first, self.last, self.lines as int, self.vt as int);
                }
                self.vt = self.lines as u64 + 1;
                self.c = 0;
            }
        }
    }

    /// The best candidate so far.
    pub fn best(&self) -> (r: Option<(u32, u32)>)
        requires
            self.wf(),
        ensures
            match r {
                Some(x) => best_of(self.judged()) matches Some(b) && b.0 == x,
                None => best_of(self.judged()) is None,
            },
    {
        match self.best {
            Some((x, _)) => Some(x),
            None => None,
        }
    }
}

proof fn lemma_grid_empty(first: u32, last: u32, lines: int, vt: int)
    requires
        first > last,
    ensures
        grid(first, last, lines, first as int, vt) == Seq::<(u32, u32)>::empty(),
    decreases lines + 1 - vt,
{
    if vt <= lines {
        lemma_grid_empty(first, last, lines, vt + 1);
    }
}

pub open spec fn numbers(a: Seq<u32>) -> Seq<Seq<char>> {
    a.map_values(|n: u32| decimal(n as nat))
}

/// `a` with its sync pulse made longer, so that the total is `to`, if it was
/// less.
pub open spec fn widened(a: Axis, to: u32) -> Seq<u32> {
    let more = if to > total(a) {
        to - total(a)
    } else {
        0
    };
    seq![a.active, a.front_porch, (a.sync_len + more) as u32, a.back_porch]
}

/// The line of a display mode.
pub open spec fn mode_text(
    t: Timing,
    clock: u32,
    htotal: u32,
    vtotal: u32,
    is_default: bool,
) -> Seq<char> {
    "M clock="@ + decimal(clock as nat) + " horizontal="@ + joined(
        numbers(widened(t.hor, htotal)),
        ","@,
    ) + " vertical="@ + joined(numbers(widened(t.ver, vtotal)), ","@) + (if is_default {
        " default=1"@
    } else {
        ""@
    })
}

fn number_list(a: &Vec<u32>) -> (r: String)
    ensures
        r@ == joined(numbers(a@), ","@),
{
    let mut list: Vec<String> = Vec::new();
    let mut i: usize = 0;
    assert(views(list@) =~= numbers(a@.take(0)));
    while i < a.len()
        invariant
            i <= a@.len(),
            views(list@) == numbers(a@.take(i as int)),
        decreases a@.len() - i,
    {
        let s = decimal_of(a[i] as u64);
        proof {
            lemma_views_push(list@, s);
        }
        list.push(s);
        i += 1;
        assert(views(list@) =~= numbers(a@.take(i as int)));
    }
    assert(a@.take(i as int) =~= a@);
    join_all(&list, ",")
}

fn widen(a: &Axis, to: u32) -> (r: Vec<u32>)
    requires
        total(*a) <= u32::MAX,
    ensures
        r@ == widened(*a, to),
{
    let sum = a.active + a.front_porch + a.sync_len + a.back_porch;
    let more: u32 = if to > sum {
        to - sum
    } else {
        0
    };
    let r: Vec<u32> = vec![a.active, a.front_porch, a.sync_len + more, a.back_porch];
    assert(r@ =~= widened(*a, to));
    r
}

/// The line of a display mode with a clock, a line length and a line count.
pub fn mode_line(t: &Timing, clock: u32, htotal: u32, vtotal: u32, is_default: bool) -> (r: String)
    requires
        total(t.hor) <= u32::MAX,
        total(t.ver) <= u32::MAX,
    ensures
        r@ == mode_text(*t, clock, htotal, vtotal, is_default),
{
    let h = number_list(&widen(&t.hor, htotal));
    let v = number_list(&widen(&t.ver, vtotal));
    let a = join("M clock=", decimal_of(clock as u64).as_str());
    let b = join(join(a.as_str(), " horizontal=").as_str(), h.as_str());
    let c = join(join(b.as_str(), " vertical=").as_str(), v.as_str());
    join(c.as_str(), if is_default { " default=1" } else { "" })
}

// ---------------------------------------------------------------------------
// The overlay
// ---------------------------------------------------------------------------

/// The size of the panel, with the estimate where it is not known.
pub open spec fn sized(s: PanelSize, estimate: (u32, u32)) -> (u32, u32) {
    match s {
        PanelSize::Known(w, h) => (w, h),
        PanelSize::FromResolution(_, _) => estimate,
    }
}

/// The line of the settings that hold for all modes.
pub open spec fn global_line(s: SourceView, size: (u32, u32)) -> Seq<char> {
    "G size="@ + decimal(size.0 as nat) + ","@ + decimal(size.1 as nat) + " delays="@ + joined(
        numbers(s.delays),
        ","@,
    ) + " format="@ + s.format + " lanes="@ + decimal(s.lanes as nat) + " flags=0x"@ + hexadecimal(
        s.flags as nat,
    )
}

/// The lines that describe the panel.
pub open spec fn description(s: SourceView, estimate: (u32, u32), modes: Seq<Seq<char>>) -> Seq<
    Seq<char>,
> {
    seq![global_line(s, sized(s.size, estimate))] + modes + s.init
}

fn global_text(s: &PanelSource, w: u32, h: u32) -> (r: String)
    ensures
        r@ == global_line(s@, (w, h)),
{
    let a = join("G size=", decimal_of(w as u64).as_str());
    let b = join(join(a.as_str(), ",").as_str(), decimal_of(h as u64).as_str());
    let c = join(join(b.as_str(), " delays=").as_str(), number_list(&s.delays).as_str());
    let d = join(join(c.as_str(), " format=").as_str(), s.format.as_str());
    let e = join(join(d.as_str(), " lanes=").as_str(), decimal_of(s.lanes as u64).as_str());
    join(join(e.as_str(), " flags=0x").as_str(), hex_of(s.flags as u64).as_str())
}

fn append(out: &mut Vec<String>, list: &Vec<String>)
    ensures
        views(final(out)@) == views(old(out)@) + views(list@),
{
    let mut i: usize = 0;
    assert(views(out@) =~= views(old(out)@) + views(list@).take(0));
    while i < list.len()
        invariant
            i <= list@.len(),
            views(out@) == views(old(out)@) + views(list@).take(i as int),
        decreases list@.len() - i,
    {
        let s = list[i].clone();
        proof {
            lemma_views_push(out@, s);
        }
        out.push(s);
        assert(views(list@)[i as int] == s@);
        i += 1;
        assert(views(out@) =~= views(old(out)@) + views(list@).take(i as int));
    }
    assert(views(list@).take(i as int) =~= views(list@));
}

/// The lines that describe the panel.
pub fn extract_panel_description(
    source: &PanelSource,
    estimate: (u32, u32),
    modes: &Vec<String>,
) -> (r: Vec<String>)
    ensures
        views(r@) == description(source@, estimate, views(modes@)),
{
    let (w, h) = match source.size {
        PanelSize::Known(w, h) => (w, h),
        PanelSize::FromResolution(_, _) => estimate,
    };
    let g = global_text(source, w, h);
    let mut r: Vec<String> = Vec::new();
    proof {
        lemma_views_push(r@, g);
    }
    r.push(g);
    append(&mut r, modes);
    append(&mut r, &source.init);
    assert(views(r@) =~= description(source@, estimate, views(modes@)));
    r
}

/// A list of texts, each ended by a zero byte.
pub open spec fn text_list(lines: Seq<Seq<char>>) -> Seq<u8>
    decreases lines.len(),
{
    if lines.len() == 0 {
        Seq::empty()
    } else {
        text_list(lines.drop_last()) + encode_utf8(lines.last()).push(0)
    }
}

pub open spec fn text_prop(name: Seq<char>, text: Seq<char>) -> Prop {
    Prop { name, value: encode_utf8(text).push(0) }
}

pub open spec fn panel_tree(lines: Seq<Seq<char>>) -> Node {
    Node {
        name: "panel@0"@,
        props: seq![
            text_prop("compatible"@, "archr,generic-dsi"@),
            Prop { name: "panel_description"@, value: text_list(lines) },
        ],
        children: Seq::empty(),
    }
}

pub open spec fn parent(name: Seq<char>, props: Seq<Prop>, child: Node) -> Node {
    Node { name, props, children: seq![child] }
}

/// The overlay for a panel.
pub open spec fn overlay_tree(lines: Seq<Seq<char>>) -> Node {
    let none = Seq::<Prop>::empty();
    let dsi = parent("dsi@ff450000"@, none, panel_tree(lines));
    let target = text_prop("target-path"@, "/"@);
    parent(
        ""@,
        none,
        parent("fragment@0"@, seq![target], parent("__overlay__"@, none, dsi)),
    )
}

proof fn lemma_one_node(t: Node)
    ensures
        nodes_events(seq![t]) == node_events(t),
{
    let ts = seq![t];
    let rest = ts.subrange(1, 1);
    assert(rest =~= Seq::<Node>::empty());
    assert(nodes_events(rest) =~= Seq::<Event>::empty());
    assert(nodes_events(ts) =~= node_events(t));
}

proof fn lemma_parent_events(name: Seq<char>, props: Seq<Prop>, child: Node)
    ensures
        node_events(parent(name, props, child)) == seq![Event::Begin(name)] + prop_events(props)
            + node_events(child) + seq![Event::End],
{
    lemma_one_node(child);
}

fn overlay_builder(lines: &Vec<String>) -> (r: FdtBuilder)
    ensures
        r.wf(),
        r@ == node_events(overlay_tree(views(lines@))),
{
    let ghost ls = views(lines@);
    let mut fdt = FdtBuilder::new();
    fdt.begin_node("");
    fdt.begin_node("fragment@0");
    fdt.prop_str("target-path", "/");
    fdt.begin_node("__overlay__");
    fdt.begin_node("dsi@ff450000");
    fdt.begin_node("panel@0");
    fdt.prop_str("compatible", "archr,generic-dsi");
    let mut desc: Vec<&str> = Vec::new();
    let mut i: usize = 0;
    assert(string_list(desc@) =~= text_list(ls.take(0)));
    while i < lines.len()
        invariant
            i <= lines@.len(),
            ls == views(lines@),
            string_list(desc@) == text_list(ls.take(i as int)),
        decreases lines@.len() - i,
    {
        let ghost before = desc@;
        desc.push(lines[i].as_str());
        assert(desc@.drop_last() =~= before);
        assert(ls.take(i + 1).drop_last() =~= ls.take(i as int));
        i += 1;
    }
    assert(ls.take(i as int) =~= ls);
    fdt.prop_str_list("panel_description", desc.as_slice());
    fdt.end_node();
    fdt.end_node();
    fdt.end_node();
    fdt.end_node();
    fdt.end_node();
    proof {
        let none = Seq::<Prop>::empty();
        let panel = panel_tree(ls);
        assert(nodes_events(panel.children) =~= Seq::<Event>::empty());
        let dsi = parent("dsi@ff450000"@, none, panel);
        let over = parent("__overlay__"@, none, dsi);
        let target = text_prop("target-path"@, "/"@);
        let frag = parent("fragment@0"@, seq![target], over);
        lemma_parent_events("dsi@ff450000"@, none, panel);
        lemma_parent_events("__overlay__"@, none, dsi);
        lemma_parent_events("fragment@0"@, seq![target], over);
        lemma_parent_events(""@, none, frag);
        assert(fdt@ =~= node_events(overlay_tree(ls)));
    }
    fdt
}

/// The overlay is short enough for its header.
pub open spec fn overlay_fits(lines: Seq<Seq<char>>) -> bool {
    blob_len(node_events(overlay_tree(lines))) <= u32::MAX
}

/// The overlay for the lines that describe a panel.
pub fn build_overlay(panel_desc: &Vec<String>) -> (r: Vec<u8>)
    requires
        overlay_fits(views(panel_desc@)),
    ensures
        r@ == blob(node_events(overlay_tree(views(panel_desc@)))),
{
    overlay_builder(panel_desc).finish()
}

/// The overlay for a panel, with its display modes and, where its size is not
/// given, an estimate of it. `None`: the overlay would be too long for its
/// header.
pub fn generate_overlay(
    dtb_data: &[u8],
    estimate: (u32, u32),
    modes: &Vec<String>,
) -> (r: Option<Result<Vec<u8>, String>>)
    requires
        panel_readable(dtb_data@),
    ensures
        match panel_source(dtb_data@) {
            Ok(s) => {
                let lines = description(s, estimate, views(modes@));
                if overlay_fits(lines) {
                    r matches Some(Ok(v)) && v@ == blob(node_events(overlay_tree(lines)))
                } else {
                    r is None
                }
            },
            Err(e) => r matches Some(Err(m)) && m@ == e,
        },
{
    match read_panel(dtb_data) {
        Ok(source) => {
            let lines = extract_panel_description(&source, estimate, modes);
            if overlay_builder(&lines).fits() {
                Some(Ok(build_overlay(&lines)))
            } else {
                None
            }
        },
        Err(e) => Some(Err(e)),
    }
}

proof fn lemma_overlay_names()
    ensures
        no_nul(encode_utf8(""@)),
        no_nul(encode_utf8("fragment@0"@)),
        no_nul(encode_utf8("target-path"@)),
        no_nul(encode_utf8("__overlay__"@)),
        no_nul(encode_utf8("dsi@ff450000"@)),
        no_nul(encode_utf8("panel@0"@)),
        no_nul(encode_utf8("compatible"@)),
        no_nul(encode_utf8("panel_description"@)),
{
    reveal_strlit("");
    lemma_ascii_name(""@);
    reveal_strlit("fragment@0");
    lemma_ascii_name("fragment@0"@);
    reveal_strlit("target-path");
    lemma_ascii_name("target-path"@);
    reveal_strlit("__overlay__");
    lemma_ascii_name("__overlay__"@);
    reveal_strlit("dsi@ff450000");
    lemma_ascii_name("dsi@ff450000"@);
    reveal_strlit("panel@0");
    lemma_ascii_name("panel@0"@);
    reveal_strlit("compatible");
    lemma_ascii_name("compatible"@);
    reveal_strlit("panel_description");
    lemma_ascii_name("panel_description"@);
}

proof fn lemma_search_parent(name: Seq<char>, props: Seq<Prop>, child: Node, n: Seq<char>)
    requires
        value_of(props, n) is None,
    ensures
        search(parent(name, props, child), n) == search(child, n),
{
    let t = parent(name, props, child);
    let rest = t.children.subrange(1, 1);
    assert(rest =~= Seq::<Node>::empty());
    assert(search_all(rest, n) is None);
    assert(search_all(t.children, n) == search(child, n));
}

/// A generated overlay can be opened, and its panel description is the list
/// of lines it was made from.
pub proof fn lemma_generated_reads_back(lines: Seq<Seq<char>>)
    requires
        overlay_fits(lines),
    ensures
        readable(blob(node_events(overlay_tree(lines)))),
        panel_description(blob(node_events(overlay_tree(lines)))) == Ok::<Seq<u8>, Seq<char>>(
            text_list(lines),
        ),
{
    let none = Seq::<Prop>::empty();
    let n = "panel_description"@;
    let panel = panel_tree(lines);
    let dsi = parent("dsi@ff450000"@, none, panel);
    let over = parent("__overlay__"@, none, dsi);
    let target = text_prop("target-path"@, "/"@);
    let frag = parent("fragment@0"@, seq![target], over);
    let root = overlay_tree(lines);
    lemma_overlay_names();
    assert(plain(panel));
    assert(plain(dsi));
    assert(plain(over));
    assert(plain(frag));
    assert(plain(root));
    lemma_blob_holds_tree(root);
    lemma_tree_of(blob(node_events(root)), root);
    reveal_strlit("");
    reveal_strlit("target-path");
    reveal_strlit("compatible");
    reveal_strlit("panel_description");
    assert(""@ =~= Seq::<char>::empty());
    assert(""@.take(upto(""@, '@')) =~= Seq::<char>::empty());
    assert(root_of(blob(node_events(root))) == Some(root));
    assert(value_of(none, n) is None);
    assert(seq![target].skip(1) =~= none);
    assert(value_of(seq![target], n) is None);
    assert(panel.props.skip(1)[0] == panel.props[1]);
    assert(value_of(panel.props.skip(1), n) == Some(text_list(lines)));
    assert(value_of(panel.props, n) == Some(text_list(lines)));
    lemma_search_parent("dsi@ff450000"@, none, panel, n);
    lemma_search_parent("__overlay__"@, none, dsi, n);
    lemma_search_parent("fragment@0"@, seq![target], over, n);
    lemma_search_parent(""@, none, frag, n);
}

} // verus!
