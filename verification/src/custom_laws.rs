//! What the settings of a panel overlay do to each node of its tree, and how
//! they are found in it.

use crate::blob::{root_of, value_of};
use crate::bytes::{be32, be_word};
use crate::panel_config::{
    config_in, config_of, customized, flipped, hp_props, is_joypad, kept_props, left_props,
    number_of, overlay_root, panel_description, replaced_in, right_props,
    rotation_props, search, search_all, search_number, search_number_all, PanelConfig,
};
use crate::panel_laws::lemma_custom_value;
use crate::text_laws::lemma_parts;
use crate::tree::{Node, Prop};
use vstd::prelude::*;
use vstd::utf8::*;

verus! {

/// A property of that name stands in the node.
pub open spec fn stands(t: Node, name: Seq<char>) -> bool {
    exists|i: int| 0 <= i < t.props.len() && (#[trigger] t.props[i]).name == name
}

/// The four bytes are the number, the high byte first.
pub open spec fn holds_number(b: Seq<u8>, n: int) -> bool {
    b.len() == 4 && b[0] * 16777216 + b[1] * 65536 + b[2] * 256 + b[3] == n
}

proof fn lemma_stands(ps: Seq<Prop>, name: Seq<char>)
    ensures
        value_of(ps, name) is Some <==> exists|i: int|
            0 <= i < ps.len() && (#[trigger] ps[i]).name == name,
    decreases ps.len(),
{
    if ps.len() > 0 && ps[0].name != name {
        let rest = ps.skip(1);
        lemma_stands(rest, name);
        if exists|i: int| 0 <= i < ps.len() && (#[trigger] ps[i]).name == name {
            let i = choose|i: int| 0 <= i < ps.len() && (#[trigger] ps[i]).name == name;
            assert(rest[i - 1] == ps[i]);
        }
        if exists|i: int| 0 <= i < rest.len() && (#[trigger] rest[i]).name == name {
            let i = choose|i: int| 0 <= i < rest.len() && (#[trigger] rest[i]).name == name;
            assert(rest[i] == ps[i + 1]);
        }
    }
}

proof fn lemma_number_bytes(n: u32)
    ensures
        holds_number(be32(n), n as int),
{
    let b = be32(n);
    assert(b[0] == n / 0x1000000);
    assert(b[1] == n / 0x10000 % 0x100);
    assert(b[2] == n / 0x100 % 0x100);
    assert(b[3] == n % 0x100);
}

/// The properties that invert the sticks stand exactly as the settings say.
pub open spec fn sticks_as_set(t: Node, cfg: PanelConfig) -> bool {
    let one = seq![0u8, 0, 0, 1];
    let ps = customized(t, cfg).props;
    &&& cfg.invert_left_stick ==> value_of(ps, "invert-absx"@) == Some(one) && value_of(
        ps,
        "invert-absy"@,
    ) == Some(one)
    &&& !cfg.invert_left_stick ==> !stands(customized(t, cfg), "invert-absx"@) && !stands(
        customized(t, cfg),
        "invert-absy"@,
    )
    &&& cfg.invert_right_stick ==> value_of(ps, "invert-absrx"@) == Some(one) && value_of(
        ps,
        "invert-absry"@,
    ) == Some(one)
    &&& !cfg.invert_right_stick ==> !stands(customized(t, cfg), "invert-absrx"@) && !stands(
        customized(t, cfg),
        "invert-absry"@,
    )
}

proof fn lemma_sticks(t: Node, cfg: PanelConfig)
    requires
        is_joypad(t),
    ensures
        sticks_as_set(t, cfg),
{
    lemma_names();
    lemma_custom_value(t, cfg, "invert-absx"@);
    lemma_custom_value(t, cfg, "invert-absy"@);
    lemma_custom_value(t, cfg, "invert-absrx"@);
    lemma_custom_value(t, cfg, "invert-absry"@);
    let ps = customized(t, cfg).props;
    lemma_stands(ps, "invert-absx"@);
    lemma_stands(ps, "invert-absy"@);
    lemma_stands(ps, "invert-absrx"@);
    lemma_stands(ps, "invert-absry"@);
    assert(be32(1) =~= seq![0u8, 0, 0, 1]);
}

proof fn lemma_names()
    ensures
        "rotation"@.len() == 8,
        "invert-absx"@.len() == 11,
        "invert-absy"@.len() == 11,
        "invert-absrx"@.len() == 12,
        "invert-absry"@.len() == 12,
        "panel_description"@.len() == 17,
        "simple-audio-card,hp-det-gpio"@.len() == 29,
        "invert-absx"@ != "invert-absy"@,
        "invert-absrx"@ != "invert-absry"@,
{
    reveal_strlit("rotation");
    reveal_strlit("invert-absx");
    reveal_strlit("invert-absy");
    reveal_strlit("invert-absrx");
    reveal_strlit("invert-absry");
    reveal_strlit("panel_description");
    reveal_strlit("simple-audio-card,hp-det-gpio");
    assert("invert-absx"@[10] != "invert-absy"@[10]);
    assert("invert-absrx"@[11] != "invert-absry"@[11]);
}

/// Any one of the properties by which a joypad is known is enough: the node
/// gets its sticks inverted as the settings say, and no inversion is left of
/// a stick that they do not invert.
pub proof fn lemma_joypad(t: Node, cfg: PanelConfig)
    ensures
        stands(t, "joypad-name"@) ==> sticks_as_set(t, cfg),
        stands(t, "button-adc-scale"@) ==> sticks_as_set(t, cfg),
        stands(t, "io-channel-names"@) ==> sticks_as_set(t, cfg),
{
    lemma_stands(t.props, "joypad-name"@);
    lemma_stands(t.props, "button-adc-scale"@);
    lemma_stands(t.props, "io-channel-names"@);
    if is_joypad(t) {
        lemma_sticks(t, cfg);
    }
}

/// A node whose compatible text has the word "joypad" in it is a joypad as
/// well.
pub proof fn lemma_joypad_compatible(t: Node, cfg: PanelConfig, a: Seq<char>, b: Seq<char>)
    requires
        value_of(t.props, "compatible"@) == Some(encode_utf8(a + "joypad"@ + b)),
    ensures
        sticks_as_set(t, cfg),
{
    let s = a + "joypad"@ + b;
    encode_utf8_valid_utf8(s);
    encode_utf8_decode_utf8(s);
    lemma_parts(s, "joypad"@);
    lemma_sticks(t, cfg);
}

/// A node that is known by none of these keeps the inversions it has.
pub proof fn lemma_no_joypad(t: Node, cfg: PanelConfig, n: Seq<char>)
    requires
        !stands(t, "joypad-name"@),
        !stands(t, "button-adc-scale"@),
        !stands(t, "io-channel-names"@),
        value_of(t.props, "compatible"@) matches Some(v) ==> forall|a: Seq<char>, b: Seq<char>|
            v != encode_utf8(#[trigger] (a + "joypad"@ + b)),
        n == "invert-absx"@ || n == "invert-absy"@ || n == "invert-absrx"@ || n
            == "invert-absry"@,
    ensures
        value_of(customized(t, cfg).props, n) == value_of(t.props, n),
{
    lemma_stands(t.props, "joypad-name"@);
    lemma_stands(t.props, "button-adc-scale"@);
    lemma_stands(t.props, "io-channel-names"@);
    if is_joypad(t) {
        let v = value_of(t.props, "compatible"@)->0;
        let s = decode_utf8(v);
        lemma_parts(s, "joypad"@);
        decode_utf8_encode_utf8(v);
        let (a, b) = choose|a: Seq<char>, b: Seq<char>| s == #[trigger] (a + "joypad"@ + b);
        assert(v == encode_utf8(a + "joypad"@ + b));
    }
    lemma_names();
    lemma_custom_value(t, cfg, n);
}

/// The node that describes a panel, and no other, gets the rotation, unless
/// that is zero.
pub proof fn lemma_rotation(t: Node, cfg: PanelConfig)
    ensures
        ({
            let r = value_of(customized(t, cfg).props, "rotation"@);
            if stands(t, "panel_description"@) && cfg.rotation != 0 {
                r is Some && holds_number(r->0, cfg.rotation as int)
            } else {
                r == value_of(t.props, "rotation"@)
            }
        }),
{
    lemma_names();
    lemma_stands(t.props, "panel_description"@);
    lemma_custom_value(t, cfg, "rotation"@);
    lemma_number_bytes(cfg.rotation);
}

/// Inverting the headphone pin turns the polarity round and touches nothing
/// else of its value; without the setting, or without a polarity, the value
/// stays.
pub proof fn lemma_headphones(t: Node, cfg: PanelConfig)
    ensures
        ({
            let before = value_of(t.props, "simple-audio-card,hp-det-gpio"@);
            let now = value_of(customized(t, cfg).props, "simple-audio-card,hp-det-gpio"@);
            if before is Some && before->0.len() >= 12 && cfg.hp_invert {
                let v = before->0;
                let w = now->0;
                &&& now is Some
                &&& w.len() == v.len()
                &&& forall|i: int|
                    0 <= i < v.len() && (i < 8 || i >= 12) ==> #[trigger] w[i] == v[i]
                &&& w[8] == 0 && w[9] == 0 && w[10] == 0
                &&& w[11] == 1 <==> v[8] == 0 && v[9] == 0 && v[10] == 0 && v[11] == 0
                &&& w[11] <= 1
            } else {
                now == before
            }
        }),
{
    lemma_names();
    lemma_custom_value(t, cfg, "simple-audio-card,hp-det-gpio"@);
    let before = value_of(t.props, "simple-audio-card,hp-det-gpio"@);
    if before is Some && before->0.len() >= 12 {
        let v = before->0;
        assert(be32(0) =~= seq![0u8, 0, 0, 0]);
        assert(be32(1) =~= seq![0u8, 0, 0, 1]);
        assert(v[8] * 0x1000000 + v[9] * 0x10000 + v[10] * 0x100 + v[11] <= 0xffff_ffff);
        let w = flipped(v);
        assert(w.len() == v.len());
        assert forall|i: int| 0 <= i < v.len() && (i < 8 || i >= 12) implies #[trigger] w[i]
            == v[i] by {
            if i >= 12 {
                assert(v.skip(12)[i - 12] == v[i]);
            }
        }
    }
}

/// The name belongs to no setting.
pub open spec fn no_setting(n: Seq<char>) -> bool {
    n != "rotation"@ && n != "invert-absx"@ && n != "invert-absy"@ && n != "invert-absrx"@ && n
        != "invert-absry"@ && n != "simple-audio-card,hp-det-gpio"@
}

proof fn lemma_kept_others(t: Node, cfg: PanelConfig, ps: Seq<Prop>)
    ensures
        kept_props(t, cfg, ps).filter(|p: Prop| no_setting(p.name)) == ps.filter(
            |p: Prop| no_setting(p.name),
        ),
    decreases ps.len(),
{
    reveal(Seq::filter);
    let f = |p: Prop| no_setting(p.name);
    if ps.len() > 0 {
        lemma_kept_others(t, cfg, ps.drop_last());
        let k = kept_props(t, cfg, ps.drop_last());
        if !replaced_in(t, cfg, ps.last().name) {
            let all = k.push(ps.last());
            assert(all.drop_last() =~= k);
            assert(all.last() == ps.last());
        }
    }
}

proof fn lemma_none_left(ps: Seq<Prop>)
    requires
        ps.len() <= 2,
        forall|i: int| 0 <= i < ps.len() ==> !no_setting((#[trigger] ps[i]).name),
    ensures
        ps.filter(|p: Prop| no_setting(p.name)) == Seq::<Prop>::empty(),
    decreases ps.len(),
{
    reveal(Seq::filter);
    if ps.len() > 0 {
        assert(ps.last() == ps[ps.len() - 1]);
        assert forall|i: int| 0 <= i < ps.drop_last().len() implies !no_setting(
            (#[trigger] ps.drop_last()[i]).name,
        ) by {
            assert(ps.drop_last()[i] == ps[i]);
        }
        lemma_none_left(ps.drop_last());
    }
}

/// The properties that belong to no setting all stay, with their values and
/// in their order, and none is added; the node keeps its name and its
/// children, each customized.
pub proof fn lemma_others_stay(t: Node, cfg: PanelConfig)
    ensures
        customized(t, cfg).props.filter(|p: Prop| no_setting(p.name)) == t.props.filter(
            |p: Prop| no_setting(p.name),
        ),
        customized(t, cfg).name == t.name,
        customized(t, cfg).children.len() == t.children.len(),
        forall|i: int|
            0 <= i < t.children.len() ==> #[trigger] customized(t, cfg).children[i] == customized(
                t.children[i],
                cfg,
            ),
{
    let f = |p: Prop| no_setting(p.name);
    let k = kept_props(t, cfg, t.props);
    let ro = rotation_props(t, cfg);
    let le = left_props(t, cfg);
    let ri = right_props(t, cfg);
    let hp = hp_props(t, cfg);
    lemma_kept_others(t, cfg, t.props);
    lemma_none_left(ro);
    lemma_none_left(le);
    lemma_none_left(ri);
    lemma_none_left(hp);
    Seq::filter_distributes_over_add(k, ro, f);
    Seq::filter_distributes_over_add(k + ro, le, f);
    Seq::filter_distributes_over_add(k + ro + le, ri, f);
    Seq::filter_distributes_over_add(k + ro + le + ri, hp, f);
    let none = Seq::<Prop>::empty();
    let base = k.filter(f);
    assert(base + none =~= base);
}

// ---------------------------------------------------------------------------
// Searching
// ---------------------------------------------------------------------------

/// The nodes of a tree, each before its children.
pub open spec fn nodes(t: Node) -> Seq<Node>
    decreases t, 0int,
{
    seq![t] + nodes_all(t.children)
}

pub open spec fn nodes_all(ts: Seq<Node>) -> Seq<Node>
    decreases ts, ts.len(),
{
    if ts.len() == 0 {
        Seq::empty()
    } else {
        nodes(ts[0]) + nodes_all(ts.subrange(1, ts.len() as int))
    }
}

/// The first of the nodes that has the property gives its value.
pub open spec fn first_value(ts: Seq<Node>, name: Seq<char>, r: Option<Seq<u8>>) -> bool {
    match r {
        Some(v) => exists|k: int|
            0 <= k < ts.len() && value_of((#[trigger] ts[k]).props, name) == Some(v) && forall|j: int|
                0 <= j < k ==> value_of((#[trigger] ts[j]).props, name) is None,
        None => forall|k: int| 0 <= k < ts.len() ==> value_of((#[trigger] ts[k]).props, name) is None,
    }
}

/// The first of the nodes that has the property with a number in it gives
/// that number.
pub open spec fn first_number(ts: Seq<Node>, name: Seq<char>, r: Option<u32>) -> bool {
    match r {
        Some(n) => exists|k: int|
            0 <= k < ts.len() && number_in((#[trigger] ts[k]).props, name) == Some(n as int)
                && forall|j: int|
                0 <= j < k ==> number_in((#[trigger] ts[j]).props, name) is None,
        None => forall|k: int|
            0 <= k < ts.len() ==> number_in((#[trigger] ts[k]).props, name) is None,
    }
}

/// The number in the first four bytes of a property, where it has as many.
pub open spec fn number_in(ps: Seq<Prop>, name: Seq<char>) -> Option<int> {
    match value_of(ps, name) {
        Some(b) if b.len() >= 4 => Some(b[0] * 16777216 + b[1] * 65536 + b[2] * 256 + b[3]),
        _ => None,
    }
}

proof fn lemma_first_value_joined(
    a: Seq<Node>,
    b: Seq<Node>,
    name: Seq<char>,
    r: Option<Seq<u8>>,
    s: Option<Seq<u8>>,
)
    requires
        first_value(a, name, r),
        first_value(b, name, s),
    ensures
        first_value(a + b, name, if r is Some { r } else { s }),
{
    let all = a + b;
    if r is Some {
        let k = choose|k: int|
            0 <= k < a.len() && value_of((#[trigger] a[k]).props, name) == r && forall|j: int|
                0 <= j < k ==> value_of((#[trigger] a[j]).props, name) is None;
        assert(all[k] == a[k]);
        assert forall|j: int| 0 <= j < k implies value_of((#[trigger] all[j]).props, name) is None by {
            assert(all[j] == a[j]);
        }
    } else {
        assert forall|j: int| 0 <= j < a.len() implies value_of((#[trigger] all[j]).props, name) is
            None by {
            assert(all[j] == a[j]);
        }
        if s is Some {
            let k = choose|k: int|
                0 <= k < b.len() && value_of((#[trigger] b[k]).props, name) == s && forall|j: int|
                    0 <= j < k ==> value_of((#[trigger] b[j]).props, name) is None;
            let m = k + a.len();
            assert(all[m] == b[k]);
            assert forall|j: int| 0 <= j < m implies value_of((#[trigger] all[j]).props, name) is
                None by {
                if j >= a.len() {
                    assert(all[j] == b[j - a.len()]);
                }
            }
        } else {
            assert forall|j: int| 0 <= j < all.len() implies value_of(
                (#[trigger] all[j]).props,
                name,
            ) is None by {
                if j >= a.len() {
                    assert(all[j] == b[j - a.len()]);
                }
            }
        }
    }
}

proof fn lemma_first_number_joined(
    a: Seq<Node>,
    b: Seq<Node>,
    name: Seq<char>,
    r: Option<u32>,
    s: Option<u32>,
)
    requires
        first_number(a, name, r),
        first_number(b, name, s),
    ensures
        first_number(a + b, name, if r is Some { r } else { s }),
{
    let all = a + b;
    if r is Some {
        let k = choose|k: int|
            0 <= k < a.len() && number_in((#[trigger] a[k]).props, name) == Some(r->0 as int)
                && forall|j: int|
                0 <= j < k ==> number_in((#[trigger] a[j]).props, name) is None;
        assert(all[k] == a[k]);
        assert forall|j: int| 0 <= j < k implies number_in((#[trigger] all[j]).props, name) is None by {
            assert(all[j] == a[j]);
        }
    } else {
        assert forall|j: int| 0 <= j < a.len() implies number_in((#[trigger] all[j]).props, name) is
            None by {
            assert(all[j] == a[j]);
        }
        if s is Some {
            let k = choose|k: int|
                0 <= k < b.len() && number_in((#[trigger] b[k]).props, name) == Some(s->0 as int)
                    && forall|j: int|
                    0 <= j < k ==> number_in((#[trigger] b[j]).props, name) is None;
            let m = k + a.len();
            assert(all[m] == b[k]);
            assert forall|j: int| 0 <= j < m implies number_in((#[trigger] all[j]).props, name) is
                None by {
                if j >= a.len() {
                    assert(all[j] == b[j - a.len()]);
                }
            }
        } else {
            assert forall|j: int| 0 <= j < all.len() implies number_in(
                (#[trigger] all[j]).props,
                name,
            ) is None by {
                if j >= a.len() {
                    assert(all[j] == b[j - a.len()]);
                }
            }
        }
    }
}

/// A search through a tree gives the first value in the order of the tree.
pub proof fn lemma_search_first(t: Node, name: Seq<char>)
    ensures
        first_value(nodes(t), name, search(t, name)),
        first_number(nodes(t), name, search_number(t, name)),
    decreases t, 0int,
{
    let one = seq![t];
    let r = value_of(t.props, name);
    let n = number_of(r);
    lemma_search_first_all(t.children, name);
    assert(one[0] == t);
    assert(first_value(one, name, r));
    if r is Some && r->0.len() >= 4 {
        let b = r->0;
        assert(b[0] * 0x1000000 + b[1] * 0x10000 + b[2] * 0x100 + b[3] <= 0xffff_ffff);
        assert(number_in(one[0].props, name) == Some(n->0 as int));
    }
    assert(first_number(one, name, n));
    lemma_first_value_joined(one, nodes_all(t.children), name, r, search_all(t.children, name));
    lemma_first_number_joined(
        one,
        nodes_all(t.children),
        name,
        n,
        search_number_all(t.children, name),
    );
}

proof fn lemma_search_first_all(ts: Seq<Node>, name: Seq<char>)
    ensures
        first_value(nodes_all(ts), name, search_all(ts, name)),
        first_number(nodes_all(ts), name, search_number_all(ts, name)),
    decreases ts, ts.len(),
{
    if ts.len() > 0 {
        let rest = ts.subrange(1, ts.len() as int);
        lemma_search_first(ts[0], name);
        lemma_search_first_all(rest, name);
        lemma_first_value_joined(
            nodes(ts[0]),
            nodes_all(rest),
            name,
            search(ts[0], name),
            search_all(rest, name),
        );
        lemma_first_number_joined(
            nodes(ts[0]),
            nodes_all(rest),
            name,
            search_number(ts[0], name),
            search_number_all(rest, name),
        );
    }
}

/// The settings found in a tree: the first rotation, or none, and the sticks
/// that some node inverts. Headphones count as not inverted.
pub proof fn lemma_config_found(t: Node)
    ensures
        ({
            let c = config_in(t);
            let ts = nodes(t);
            &&& first_number(ts, "rotation"@, Some(c.rotation)) || c.rotation == 0 && first_number(
                ts,
                "rotation"@,
                None,
            )
            &&& c.invert_left_stick <==> exists|k: int|
                0 <= k < ts.len() && stands(#[trigger] ts[k], "invert-absx"@)
            &&& c.invert_right_stick <==> exists|k: int|
                0 <= k < ts.len() && stands(#[trigger] ts[k], "invert-absrx"@)
            &&& !c.hp_invert
        }),
{
    let ts = nodes(t);
    lemma_search_first(t, "rotation"@);
    lemma_search_first(t, "invert-absx"@);
    lemma_search_first(t, "invert-absrx"@);
    assert forall|k: int| 0 <= k < ts.len() implies stands(#[trigger] ts[k], "invert-absx"@)
        == value_of(ts[k].props, "invert-absx"@) is Some by {
        lemma_stands(ts[k].props, "invert-absx"@);
    }
    assert forall|k: int| 0 <= k < ts.len() implies stands(#[trigger] ts[k], "invert-absrx"@)
        == value_of(ts[k].props, "invert-absrx"@) is Some by {
        lemma_stands(ts[k].props, "invert-absrx"@);
    }
}

proof fn lemma_magic(a: u8, b: u8, c: u8, d: u8)
    ensures
        a * 0x1000000 + b * 0x10000 + c * 0x100 + d == 0xd00d_feed <==> a == 0xd0 && b == 0x0d && c
            == 0xfe && d == 0xed,
{
}

/// A blob opens if it has a whole header, the magic number of a device tree
/// and as many bytes as it says; the message tells which of these it lacks.
pub proof fn lemma_header_read(data: Seq<u8>)
    requires
        data.len() >= 40,
    ensures
        ({
            let magic = data[0] == 0xd0 && data[1] == 0x0d && data[2] == 0xfe && data[3] == 0xed;
            let told = data[4] * 16777216 + data[5] * 65536 + data[6] * 256 + data[7];
            &&& !magic ==> overlay_root(data) == Err::<Node, Seq<char>>("Invalid DTBO: BadMagic"@)
            &&& magic && data.len() < told ==> overlay_root(data) == Err::<Node, Seq<char>>(
                "Invalid DTBO: BufferTooSmall"@,
            )
            &&& magic && data.len() >= told ==> overlay_root(data) == match root_of(data) {
                Some(t) => Ok::<Node, Seq<char>>(t),
                None => Err::<Node, Seq<char>>("DTBO has no root node"@),
            }
        }),
{
    reveal_strlit("Invalid DTBO: ");
    reveal_strlit("BufferTooSmall");
    reveal_strlit("BadMagic");
    reveal_strlit("Invalid DTBO: BufferTooSmall");
    reveal_strlit("Invalid DTBO: BadMagic");
    assert("Invalid DTBO: "@ + "BufferTooSmall"@ =~= "Invalid DTBO: BufferTooSmall"@);
    assert("Invalid DTBO: "@ + "BadMagic"@ =~= "Invalid DTBO: BadMagic"@);
    lemma_magic(data[0], data[1], data[2], data[3]);
    assert(be_word(data, 0) == data[0] * 0x1000000 + data[1] * 0x10000 + data[2] * 0x100 + data[3]);
    assert(be_word(data, 4) == data[4] * 0x1000000 + data[5] * 0x10000 + data[6] * 0x100 + data[7]);
}

/// A blob too short for its header does not open.
pub proof fn lemma_header_missing(data: Seq<u8>)
    requires
        data.len() < 40,
    ensures
        overlay_root(data) == Err::<Node, Seq<char>>("Invalid DTBO: BufferTooSmall"@),
{
    reveal_strlit("Invalid DTBO: ");
    reveal_strlit("BufferTooSmall");
    reveal_strlit("Invalid DTBO: BufferTooSmall");
    assert("Invalid DTBO: "@ + "BufferTooSmall"@ =~= "Invalid DTBO: BufferTooSmall"@);
}

/// What is read of a blob: nothing but the default of one that does not open,
/// the settings of its tree otherwise; and the panel description of the first
/// node that has one.
pub proof fn lemma_overlay_read(data: Seq<u8>)
    ensures
        overlay_root(data) matches Err(e) ==> config_of(data) == (PanelConfig {
            rotation: 0,
            invert_left_stick: false,
            invert_right_stick: false,
            hp_invert: false,
        }) && panel_description(data) == Err::<Seq<u8>, Seq<char>>(e),
        overlay_root(data) matches Ok(t) ==> config_of(data) == config_in(t) && (
        match panel_description(data) {
            Ok(v) => first_value(nodes(t), "panel_description"@, Some(v)),
            Err(e) => first_value(nodes(t), "panel_description"@, None) && e
                == "panel_description property not found in DTBO"@,
        }),
{
    if overlay_root(data) is Ok {
        lemma_search_first(overlay_root(data)->Ok_0, "panel_description"@);
    }
}

} // verus!
