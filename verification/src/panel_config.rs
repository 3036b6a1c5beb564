//! Panel customization: what a panel overlay says, and a copy of it with
//! rotation, stick inversion and headphone-detect inversion baked in.

use crate::blob::{property, read_root, root_of, value_of};
use crate::bytes::{be32, be_word, copy_range, push_all, push_be32, read_be32};
use crate::dtbo_builder::{
    blob, blob_len, node_events, nodes_events, prop_events, Event, FdtBuilder,
};
use crate::text::{contains, join, occurs, same, utf8_text};
use crate::tree::{header_fault, readable, BlobFault, DtNode, Node, Prop};
use vstd::prelude::*;
use vstd::utf8::*;

verus! {

/// What the user can change in a panel overlay.
#[derive(Debug, Clone, Copy, PartialEq, Eq, Structural)]
pub struct PanelConfig {
    pub rotation: u32,
    pub invert_left_stick: bool,
    pub invert_right_stick: bool,
    pub hp_invert: bool,
}

impl Default for PanelConfig {
    fn default() -> (r: Self)
        ensures
            r == unchanged(),
    {
        PanelConfig {
            rotation: 0,
            invert_left_stick: false,
            invert_right_stick: false,
            hp_invert: false,
        }
    }
}

/// The settings that change nothing.
pub open spec fn unchanged() -> PanelConfig {
    PanelConfig {
        rotation: 0,
        invert_left_stick: false,
        invert_right_stick: false,
        hp_invert: false,
    }
}

impl PanelConfig {
    pub fn is_default(&self) -> (r: bool)
        ensures
            r == (*self == unchanged()),
    {
        self.rotation == 0 && !self.invert_left_stick && !self.invert_right_stick
            && !self.hp_invert
    }
}

// ---------------------------------------------------------------------------
// Searching a tree
// ---------------------------------------------------------------------------

/// The first value under the name `name`, the node before its children and
/// the children in order.
pub open spec fn search(t: Node, name: Seq<char>) -> Option<Seq<u8>>
    decreases t, 0int,
{
    match value_of(t.props, name) {
        Some(v) => Some(v),
        None => search_all(t.children, name),
    }
}

/// The first value under the name `name` in a list of nodes.
pub open spec fn search_all(ts: Seq<Node>, name: Seq<char>) -> Option<Seq<u8>>
    decreases ts, ts.len(),
{
    if ts.len() == 0 {
        None
    } else {
        match search(ts[0], name) {
            Some(v) => Some(v),
            None => search_all(ts.subrange(1, ts.len() as int), name),
        }
    }
}

/// The number in a value of at least four bytes.
pub open spec fn number_of(v: Option<Seq<u8>>) -> Option<u32> {
    match v {
        Some(b) => if b.len() >= 4 {
            Some(be_word(b, 0))
        } else {
            None
        },
        None => None,
    }
}

/// The first number under the name `name`, in the same order.
pub open spec fn search_number(t: Node, name: Seq<char>) -> Option<u32>
    decreases t, 0int,
{
    match number_of(value_of(t.props, name)) {
        Some(n) => Some(n),
        None => search_number_all(t.children, name),
    }
}

/// The first number under the name `name` in a list of nodes.
pub open spec fn search_number_all(ts: Seq<Node>, name: Seq<char>) -> Option<u32>
    decreases ts, ts.len(),
{
    if ts.len() == 0 {
        None
    } else {
        match search_number(ts[0], name) {
            Some(n) => Some(n),
            None => search_number_all(ts.subrange(1, ts.len() as int), name),
        }
    }
}

/// The number in the property `name` of a node.
pub fn property_u32(t: &DtNode, name: &str) -> (r: Option<u32>)
    ensures
        r == number_of(value_of(t@.props, name@)),
{
    match property(t, name) {
        Some(v) => if v.len() >= 4 {
            Some(read_be32(v.as_slice(), 0))
        } else {
            None
        },
        None => None,
    }
}

fn find_prop<'a>(t: &'a DtNode, name: &str) -> (r: Option<&'a Vec<u8>>)
    ensures
        match r {
            Some(v) => search(t@, name@) == Some(v@),
            None => search(t@, name@) is None,
        },
    decreases t,
{
    match property(t, name) {
        Some(v) => {
            return Some(v);
        },
        None => {},
    }
    let ghost kids = t@.children;
    let mut i: usize = 0;
    assert(kids.subrange(0, kids.len() as int) =~= kids);
    while i < t.children.len()
        invariant
            i <= t.children@.len(),
            kids == t@.children,
            search(t@, name@) == search_all(kids.subrange(i as int, kids.len() as int), name@),
        decreases t.children@.len() - i,
    {
        let ghost rest = kids.subrange(i as int, kids.len() as int);
        assert(rest[0] == t.children@[i as int]@);
        assert(rest.subrange(1, rest.len() as int) =~= kids.subrange(i + 1, kids.len() as int));
        match find_prop(&t.children[i], name) {
            Some(v) => {
                return Some(v);
            },
            None => {},
        }
        i += 1;
    }
    None
}

fn find_u32_prop(t: &DtNode, name: &str) -> (r: Option<u32>)
    ensures
        r == search_number(t@, name@),
    decreases t,
{
    match property_u32(t, name) {
        Some(n) => {
            return Some(n);
        },
        None => {},
    }
    let ghost kids = t@.children;
    let mut i: usize = 0;
    assert(kids.subrange(0, kids.len() as int) =~= kids);
    while i < t.children.len()
        invariant
            i <= t.children@.len(),
            kids == t@.children,
            search_number(t@, name@) == search_number_all(
                kids.subrange(i as int, kids.len() as int),
                name@,
            ),
        decreases t.children@.len() - i,
    {
        let ghost rest = kids.subrange(i as int, kids.len() as int);
        assert(rest[0] == t.children@[i as int]@);
        assert(rest.subrange(1, rest.len() as int) =~= kids.subrange(i + 1, kids.len() as int));
        match find_u32_prop(&t.children[i], name) {
            Some(n) => {
                return Some(n);
            },
            None => {},
        }
        i += 1;
    }
    None
}

// ---------------------------------------------------------------------------
// Reading an overlay
// ---------------------------------------------------------------------------

/// The name of a fault in a message.
pub open spec fn fault_name(e: BlobFault) -> Seq<char> {
    match e {
        BlobFault::BadMagic => "BadMagic"@,
        BlobFault::BadPtr => "BadPtr"@,
        BlobFault::BufferTooSmall => "BufferTooSmall"@,
    }
}

/// The message for a blob that is refused by its header.
pub fn fault_message(prefix: &str, e: BlobFault) -> (r: String)
    ensures
        r@ == prefix@ + fault_name(e),
{
    match e {
        BlobFault::BadMagic => join(prefix, "BadMagic"),
        BlobFault::BadPtr => join(prefix, "BadPtr"),
        BlobFault::BufferTooSmall => join(prefix, "BufferTooSmall"),
    }
}

/// The root of an overlay, or why there is none.
pub open spec fn overlay_root(data: Seq<u8>) -> Result<Node, Seq<char>> {
    match header_fault(data) {
        Some(e) => Err("Invalid DTBO: "@ + fault_name(e)),
        None => match root_of(data) {
            Some(t) => Ok(t),
            None => Err("DTBO has no root node"@),
        },
    }
}

fn read_overlay_root(data: &[u8]) -> (r: Result<DtNode, String>)
    requires
        readable(data@),
    ensures
        match r {
            Ok(t) => overlay_root(data@) == Ok::<Node, Seq<char>>(t@),
            Err(e) => overlay_root(data@) == Err::<Node, Seq<char>>(e@),
        },
{
    match read_root(data) {
        Ok(Some(t)) => Ok(t),
        Ok(None) => Err("DTBO has no root node".to_string()),
        Err(e) => Err(fault_message("Invalid DTBO: ", e)),
    }
}

/// The bytes of the first `panel_description` in an overlay.
pub open spec fn panel_description(data: Seq<u8>) -> Result<Seq<u8>, Seq<char>> {
    match overlay_root(data) {
        Ok(t) => match search(t, "panel_description"@) {
            Some(v) => Ok(v),
            None => Err("panel_description property not found in DTBO"@),
        },
        Err(e) => Err(e),
    }
}

/// The raw bytes of the property `panel_description`.
pub fn extract_panel_description(dtbo_bytes: &[u8]) -> (r: Result<Vec<u8>, String>)
    requires
        readable(dtbo_bytes@),
    ensures
        match r {
            Ok(v) => panel_description(dtbo_bytes@) == Ok::<Seq<u8>, Seq<char>>(v@),
            Err(e) => panel_description(dtbo_bytes@) == Err::<Seq<u8>, Seq<char>>(e@),
        },
{
    let root = match read_overlay_root(dtbo_bytes) {
        Ok(t) => t,
        Err(e) => {
            return Err(e);
        },
    };
    match find_prop(&root, "panel_description") {
        Some(v) => {
            let copy = copy_range(v.as_slice(), 0, v.len());
            assert(copy@ =~= v@);
            Ok(copy)
        },
        None => Err("panel_description property not found in DTBO".to_string()),
    }
}

/// The settings in a tree. Whether the headphone polarity was flipped cannot
/// be seen in it.
pub open spec fn config_in(t: Node) -> PanelConfig {
    PanelConfig {
        rotation: match search_number(t, "rotation"@) {
            Some(n) => n,
            None => 0,
        },
        invert_left_stick: search(t, "invert-absx"@) is Some,
        invert_right_stick: search(t, "invert-absrx"@) is Some,
        hp_invert: false,
    }
}

/// The settings in an overlay: none, if it cannot be opened.
pub open spec fn config_of(data: Seq<u8>) -> PanelConfig {
    match overlay_root(data) {
        Ok(t) => config_in(t),
        Err(_) => unchanged(),
    }
}

/// The settings baked into an overlay.
pub fn extract_config(dtbo_bytes: &[u8]) -> (r: PanelConfig)
    requires
        readable(dtbo_bytes@),
    ensures
        r == config_of(dtbo_bytes@),
{
    let mut config = PanelConfig::default();
    match read_overlay_root(dtbo_bytes) {
        Ok(root) => {
            match find_u32_prop(&root, "rotation") {
                Some(rot) => {
                    config.rotation = rot;
                },
                None => {},
            }
            config.invert_left_stick = find_prop(&root, "invert-absx").is_some();
            config.invert_right_stick = find_prop(&root, "invert-absrx").is_some();
        },
        Err(_) => {},
    }
    config
}

// ---------------------------------------------------------------------------
// Customizing an overlay
// ---------------------------------------------------------------------------

pub open spec fn has(t: Node, name: Seq<char>) -> bool {
    value_of(t.props, name) is Some
}

/// The node describes a panel.
pub open spec fn is_panel(t: Node) -> bool {
    has(t, "panel_description"@)
}

/// The node describes a joypad.
pub open spec fn is_joypad(t: Node) -> bool {
    ||| has(t, "joypad-name"@)
    ||| has(t, "button-adc-scale"@)
    ||| has(t, "io-channel-names"@)
    ||| match value_of(t.props, "compatible"@) {
        Some(v) => valid_utf8(v) && occurs(decode_utf8(v), "joypad"@),
        None => false,
    }
}

/// A property that inverts an axis of a stick.
pub open spec fn is_stick(name: Seq<char>) -> bool {
    name == "invert-absx"@ || name == "invert-absy"@ || name == "invert-absrx"@ || name
        == "invert-absry"@
}

/// The property that is left out of the copy of a node.
pub open spec fn replaced_in(t: Node, cfg: PanelConfig, name: Seq<char>) -> bool {
    ||| is_panel(t) && cfg.rotation != 0 && name == "rotation"@
    ||| is_joypad(t) && is_stick(name)
    ||| name == "simple-audio-card,hp-det-gpio"@
}

/// The properties that are copied.
pub open spec fn kept_props(t: Node, cfg: PanelConfig, ps: Seq<Prop>) -> Seq<Prop>
    decreases ps.len(),
{
    if ps.len() == 0 {
        Seq::empty()
    } else if replaced_in(t, cfg, ps.last().name) {
        kept_props(t, cfg, ps.drop_last())
    } else {
        kept_props(t, cfg, ps.drop_last()).push(ps.last())
    }
}

pub open spec fn number_prop(name: Seq<char>, n: u32) -> Prop {
    Prop { name, value: be32(n) }
}

pub open spec fn rotation_props(t: Node, cfg: PanelConfig) -> Seq<Prop> {
    if is_panel(t) && cfg.rotation != 0 {
        seq![number_prop("rotation"@, cfg.rotation)]
    } else {
        Seq::empty()
    }
}

pub open spec fn left_props(t: Node, cfg: PanelConfig) -> Seq<Prop> {
    if is_joypad(t) && cfg.invert_left_stick {
        seq![number_prop("invert-absx"@, 1), number_prop("invert-absy"@, 1)]
    } else {
        Seq::empty()
    }
}

pub open spec fn right_props(t: Node, cfg: PanelConfig) -> Seq<Prop> {
    if is_joypad(t) && cfg.invert_right_stick {
        seq![number_prop("invert-absrx"@, 1), number_prop("invert-absry"@, 1)]
    } else {
        Seq::empty()
    }
}

/// The third cell of a GPIO specifier with its polarity turned round.
pub open spec fn flipped(v: Seq<u8>) -> Seq<u8> {
    let flags: u32 = if be_word(v, 8) == 0 {
        1
    } else {
        0
    };
    v.take(8) + be32(flags) + v.skip(12)
}

/// The headphone-detect pin with the polarity that the settings ask for. A
/// value without a polarity stays as it is.
pub open spec fn hp_props(t: Node, cfg: PanelConfig) -> Seq<Prop> {
    match value_of(t.props, "simple-audio-card,hp-det-gpio"@) {
        Some(v) => seq![
            Prop {
                name: "simple-audio-card,hp-det-gpio"@,
                value: if cfg.hp_invert && v.len() >= 12 {
                    flipped(v)
                } else {
                    v
                },
            },
        ],
        None => Seq::empty(),
    }
}

/// The properties of the customized node.
pub open spec fn custom_props(t: Node, cfg: PanelConfig) -> Seq<Prop> {
    kept_props(t, cfg, t.props) + rotation_props(t, cfg) + left_props(t, cfg) + right_props(t, cfg)
        + hp_props(t, cfg)
}

/// The customized tree: the same nodes, with the settings' properties set on
/// the nodes they belong to.
pub open spec fn customized(t: Node, cfg: PanelConfig) -> Node
    decreases t,
{
    Node {
        name: t.name,
        props: custom_props(t, cfg),
        children: Seq::new(
            t.children.len(),
            |i: int|
                if 0 <= i < t.children.len() {
                    customized(t.children[i], cfg)
                } else {
                    arbitrary()
                },
        ),
    }
}

proof fn lemma_prop_events_push(ps: Seq<Prop>, p: Prop)
    ensures
        prop_events(ps.push(p)) == prop_events(ps).push(Event::Write(p)),
{
    assert(prop_events(ps.push(p)) =~= prop_events(ps).push(Event::Write(p)));
}

proof fn lemma_nodes_events_push(ts: Seq<Node>, t: Node)
    ensures
        nodes_events(ts.push(t)) == nodes_events(ts) + node_events(t),
    decreases ts.len(),
{
    let all = ts.push(t);
    if ts.len() == 0 {
        let none = all.subrange(1, 1);
        assert(none =~= Seq::<Node>::empty());
        assert(nodes_events(none) =~= Seq::<Event>::empty());
        assert(nodes_events(ts) =~= Seq::<Event>::empty());
        assert(nodes_events(all) =~= node_events(t));
    } else {
        let rest = ts.subrange(1, ts.len() as int);
        lemma_nodes_events_push(rest, t);
        assert(all.subrange(1, all.len() as int) =~= rest.push(t));
        assert(nodes_events(all) =~= nodes_events(ts) + node_events(t));
    }
}

fn has_property(t: &DtNode, name: &str) -> (r: bool)
    ensures
        r == has(t@, name@),
{
    property(t, name).is_some()
}

fn joypad(t: &DtNode) -> (r: bool)
    ensures
        r == is_joypad(t@),
{
    if has_property(t, "joypad-name") || has_property(t, "button-adc-scale") || has_property(
        t,
        "io-channel-names",
    ) {
        return true;
    }
    match property(t, "compatible") {
        Some(v) => match utf8_text(v.as_slice()) {
            Some(s) => contains(s.as_str(), "joypad"),
            None => false,
        },
        None => false,
    }
}

fn stick(name: &str) -> (r: bool)
    ensures
        r == is_stick(name@),
{
    same(name, "invert-absx") || same(name, "invert-absy") || same(name, "invert-absrx") || same(
        name,
        "invert-absry",
    )
}

fn flip_polarity(v: &Vec<u8>) -> (r: Vec<u8>)
    requires
        v@.len() >= 12,
    ensures
        r@ == flipped(v@),
{
    let flags = read_be32(v.as_slice(), 8);
    let new_flags: u32 = if flags == 0 {
        1
    } else {
        0
    };
    let mut r = copy_range(v.as_slice(), 0, 8);
    push_be32(&mut r, new_flags);
    let rest = copy_range(v.as_slice(), 12, v.len());
    push_all(&mut r, rest.as_slice());
    assert(r@ =~= flipped(v@));
    r
}

/// Copies the properties that are not replaced.
fn copy_props(t: &DtNode, builder: &mut FdtBuilder, cfg: &PanelConfig)
    requires
        old(builder).wf(),
    ensures
        final(builder).wf(),
        final(builder)@ == old(builder)@ + prop_events(kept_props(t@, *cfg, t@.props)),
{
    let override_rotation = has_property(t, "panel_description") && cfg.rotation != 0;
    let override_stick = joypad(t);
    let ghost ps = t@.props;
    let mut i: usize = 0;
    assert(builder@ =~= old(builder)@ + prop_events(kept_props(t@, *cfg, ps.take(0))));
    while i < t.properties.len()
        invariant
            i <= t.properties@.len(),
            ps == t@.props,
            override_rotation == (is_panel(t@) && cfg.rotation != 0),
            override_stick == is_joypad(t@),
            builder.wf(),
            builder@ == old(builder)@ + prop_events(kept_props(t@, *cfg, ps.take(i as int))),
        decreases t.properties@.len() - i,
    {
        let name = t.properties[i].name.as_str();
        let ghost p = ps[i as int];
        assert(p.name == name@);
        assert(ps.take(i + 1).drop_last() =~= ps.take(i as int));
        let replaced = (override_rotation && same(name, "rotation")) || (override_stick && stick(
            name,
        )) || same(name, "simple-audio-card,hp-det-gpio");
        assert(replaced == replaced_in(t@, *cfg, p.name));
        if !replaced {
            builder.prop_bytes(name, t.properties[i].value.as_slice());
            proof {
                lemma_prop_events_push(kept_props(t@, *cfg, ps.take(i as int)), p);
                assert(builder@ =~= old(builder)@ + prop_events(
                    kept_props(t@, *cfg, ps.take(i + 1)),
                ));
            }
        }
        i += 1;
    }
    assert(ps.take(i as int) =~= ps);
}

/// Writes the properties that the settings ask for.
fn inject_props(t: &DtNode, builder: &mut FdtBuilder, cfg: &PanelConfig)
    requires
        old(builder).wf(),
    ensures
        final(builder).wf(),
        final(builder)@ == old(builder)@ + prop_events(rotation_props(t@, *cfg)) + prop_events(
            left_props(t@, *cfg),
        ) + prop_events(right_props(t@, *cfg)) + prop_events(hp_props(t@, *cfg)),
{
    let ghost e0 = builder@;
    if has_property(t, "panel_description") && cfg.rotation != 0 {
        builder.prop_u32("rotation", cfg.rotation);
    }
    let ghost e1 = builder@;
    assert(e1 =~= e0 + prop_events(rotation_props(t@, *cfg)));
    let stick_node = joypad(t);
    if stick_node && cfg.invert_left_stick {
        builder.prop_u32("invert-absx", 1);
        builder.prop_u32("invert-absy", 1);
    }
    let ghost e2 = builder@;
    assert(e2 =~= e1 + prop_events(left_props(t@, *cfg)));
    if stick_node && cfg.invert_right_stick {
        builder.prop_u32("invert-absrx", 1);
        builder.prop_u32("invert-absry", 1);
    }
    let ghost e3 = builder@;
    assert(e3 =~= e2 + prop_events(right_props(t@, *cfg)));
    match property(t, "simple-audio-card,hp-det-gpio") {
        Some(v) => {
            if cfg.hp_invert && v.len() >= 12 {
                let data = flip_polarity(v);
                builder.prop_bytes("simple-audio-card,hp-det-gpio", data.as_slice());
            } else {
                builder.prop_bytes("simple-audio-card,hp-det-gpio", v.as_slice());
            }
        },
        None => {},
    }
    assert(builder@ =~= e3 + prop_events(hp_props(t@, *cfg)));
}

/// Writes the customized copy of a node with everything below it.
fn clone_node_with_config(node: &DtNode, builder: &mut FdtBuilder, config: &PanelConfig)
    requires
        old(builder).wf(),
    ensures
        final(builder).wf(),
        final(builder)@ == old(builder)@ + node_events(customized(node@, *config)),
    decreases node,
{
    let ghost t = customized(node@, *config);
    let ghost start = builder@;
    builder.begin_node(node.name.as_str());
    copy_props(node, builder, config);
    inject_props(node, builder, config);
    let ghost head = start.push(Event::Begin(t.name)) + prop_events(t.props);
    assert(builder@ =~= head);
    let mut i: usize = 0;
    assert(t.children.take(0) =~= Seq::<Node>::empty());
    assert(builder@ =~= head + nodes_events(t.children.take(0)));
    while i < node.children.len()
        invariant
            i <= node.children@.len(),
            t == customized(node@, *config),
            builder.wf(),
            builder@ == head + nodes_events(t.children.take(i as int)),
        decreases node.children@.len() - i,
    {
        let ghost before = builder@;
        clone_node_with_config(&node.children[i], builder, config);
        proof {
            let kid = customized(node.children@[i as int]@, *config);
            assert(node@.children[i as int] == node.children@[i as int]@);
            assert(t.children[i as int] == kid);
            lemma_nodes_events_push(t.children.take(i as int), kid);
            assert(t.children.take(i + 1) =~= t.children.take(i as int).push(kid));
            assert(builder@ =~= head + nodes_events(t.children.take(i + 1)));
        }
        i += 1;
    }
    assert(t.children.take(i as int) =~= t.children);
    builder.end_node();
    assert(builder@ =~= start + node_events(t));
}

/// The customized overlay, or why there is none.
pub open spec fn custom_dtbo(data: Seq<u8>, cfg: PanelConfig) -> Result<Seq<u8>, Seq<char>> {
    match overlay_root(data) {
        Ok(t) => Ok(blob(node_events(customized(t, cfg)))),
        Err(e) => Err(e),
    }
}

/// The customized overlay is short enough for its header.
pub open spec fn custom_fits(data: Seq<u8>, cfg: PanelConfig) -> bool {
    overlay_root(data) matches Ok(t) ==> blob_len(node_events(customized(t, cfg))) <= u32::MAX
}

fn custom_builder(root: &DtNode, config: &PanelConfig) -> (r: FdtBuilder)
    ensures
        r.wf(),
        r@ == node_events(customized(root@, *config)),
{
    let mut builder = FdtBuilder::new();
    clone_node_with_config(root, &mut builder, config);
    assert(builder@ =~= node_events(customized(root@, *config)));
    builder
}

/// A copy of an overlay with the settings baked in.
pub fn build_custom_dtbo(original_dtbo: &[u8], config: &PanelConfig) -> (r: Result<Vec<u8>, String>)
    requires
        readable(original_dtbo@),
        custom_fits(original_dtbo@, *config),
    ensures
        match r {
            Ok(v) => custom_dtbo(original_dtbo@, *config) == Ok::<Seq<u8>, Seq<char>>(v@),
            Err(e) => custom_dtbo(original_dtbo@, *config) == Err::<Seq<u8>, Seq<char>>(e@),
        },
{
    match read_overlay_root(original_dtbo) {
        Ok(root) => Ok(custom_builder(&root, config).finish()),
        Err(e) => Err(e),
    }
}

/// [`build_custom_dtbo`] for any bytes: `None` where they are no blob that
/// can be read, or where the copy would be too long for its header.
pub fn try_build_custom_dtbo(original_dtbo: &[u8], config: &PanelConfig) -> (r: Option<
    Result<Vec<u8>, String>,
>)
    ensures
        match r {
            Some(Ok(v)) => custom_dtbo(original_dtbo@, *config) == Ok::<Seq<u8>, Seq<char>>(v@),
            Some(Err(e)) => custom_dtbo(original_dtbo@, *config) == Err::<Seq<u8>, Seq<char>>(e@),
            None => true,
        },
        r is Some == (readable(original_dtbo@) && custom_fits(original_dtbo@, *config)),
{
    if !crate::blob::is_readable(original_dtbo) {
        return None;
    }
    match read_overlay_root(original_dtbo) {
        Ok(root) => {
            let builder = custom_builder(&root, config);
            if builder.fits() {
                Some(Ok(builder.finish()))
            } else {
                None
            }
        },
        Err(e) => Some(Err(e)),
    }
}

} // verus!
