//! What holds of every customized overlay.

use crate::blob::{lemma_tree_of, lookup, lookup_first, value_of};
use crate::bytes::{be32, be_word, lemma_be_round_trip};
use crate::dtbo_builder::{blob, lemma_blob_holds_tree, node_events, plain};
use crate::panel_config::{
    config_in, config_of, custom_dtbo, custom_fits, custom_props, customized, flipped, has, hp_props, is_joypad,
    is_panel, is_stick, kept_props, left_props, number_of, overlay_root, panel_description,
    replaced_in, right_props, rotation_props, search, search_all, search_number, search_number_all,
    PanelConfig,
};
use crate::text::upto;
use crate::tree::{
    body_of, no_nul, node_at, nodes_at, prop_at, props_at, readable, root_at, root_kids,
    root_nodes_at, root_props_at, root_start, skip_nops, strings_block, struct_block, tree_in, Node,
    Prop,
};
use vstd::prelude::*;
use vstd::utf8::*;

verus! {

// ---------------------------------------------------------------------------
// One node
// ---------------------------------------------------------------------------

proof fn lemma_value_concat(a: Seq<Prop>, b: Seq<Prop>, n: Seq<char>)
    ensures
        value_of(a + b, n) == (match value_of(a, n) {
            Some(v) => Some(v),
            None => value_of(b, n),
        }),
    decreases a.len(),
{
    if a.len() == 0 {
        assert(a + b =~= b);
    } else {
        lemma_value_concat(a.skip(1), b, n);
        assert((a + b).skip(1) =~= a.skip(1) + b);
    }
}

proof fn lemma_value_one(p: Prop, n: Seq<char>)
    ensures
        value_of(seq![p], n) == (if p.name == n {
            Some(p.value)
        } else {
            None
        }),
{
    assert(seq![p].skip(1) =~= Seq::<Prop>::empty());
    assert(value_of(seq![p].skip(1), n) is None);
}

proof fn lemma_value_two(p: Prop, q: Prop, n: Seq<char>)
    ensures
        value_of(seq![p, q], n) == (if p.name == n {
            Some(p.value)
        } else if q.name == n {
            Some(q.value)
        } else {
            None
        }),
{
    assert(seq![p, q] =~= seq![p] + seq![q]);
    lemma_value_concat(seq![p], seq![q], n);
    lemma_value_one(p, n);
    lemma_value_one(q, n);
}

proof fn lemma_kept_value(t: Node, cfg: PanelConfig, ps: Seq<Prop>, n: Seq<char>)
    ensures
        value_of(kept_props(t, cfg, ps), n) == (if replaced_in(t, cfg, n) {
            None
        } else {
            value_of(ps, n)
        }),
    decreases ps.len(),
{
    if ps.len() > 0 {
        let pre = ps.drop_last();
        let p = ps.last();
        lemma_kept_value(t, cfg, pre, n);
        lemma_value_concat(pre, seq![p], n);
        lemma_value_one(p, n);
        assert(ps =~= pre + seq![p]);
        let kept = kept_props(t, cfg, pre);
        assert(kept.push(p) =~= kept + seq![p]);
        lemma_value_concat(kept, seq![p], n);
    }
}

proof fn lemma_names_differ()
    ensures
        "rotation"@.len() == 8,
        "invert-absx"@.len() == 11,
        "invert-absy"@.len() == 11,
        "invert-absrx"@.len() == 12,
        "invert-absry"@.len() == 12,
        "panel_description"@.len() == 17,
        "simple-audio-card,hp-det-gpio"@.len() == 29,
        "invert-absx"@ != "invert-absy"@,
        "invert-absrx"@ != "invert-absry"@,
{
    reveal_strlit("rotation");
    reveal_strlit("invert-absx");
    reveal_strlit("invert-absy");
    reveal_strlit("invert-absrx");
    reveal_strlit("invert-absry");
    reveal_strlit("panel_description");
    reveal_strlit("simple-audio-card,hp-det-gpio");
    assert("invert-absx"@[10] != "invert-absy"@[10]);
    assert("invert-absrx"@[11] != "invert-absry"@[11]);
}

/// The value of a property of the customized node.
pub open spec fn custom_value(t: Node, cfg: PanelConfig, n: Seq<char>) -> Option<Seq<u8>> {
    let before = value_of(t.props, n);
    if n == "rotation"@ && is_panel(t) && cfg.rotation != 0 {
        Some(be32(cfg.rotation))
    } else if is_joypad(t) && (n == "invert-absx"@ || n == "invert-absy"@) {
        if cfg.invert_left_stick {
            Some(be32(1))
        } else {
            None
        }
    } else if is_joypad(t) && (n == "invert-absrx"@ || n == "invert-absry"@) {
        if cfg.invert_right_stick {
            Some(be32(1))
        } else {
            None
        }
    } else if n == "simple-audio-card,hp-det-gpio"@ {
        match before {
            Some(v) => if cfg.hp_invert && v.len() >= 12 {
                Some(flipped(v))
            } else {
                before
            },
            None => None,
        }
    } else {
        before
    }
}

/// Each property of a customized node has the value that the settings give
/// it, and every other property the value it had.
pub proof fn lemma_custom_value(t: Node, cfg: PanelConfig, n: Seq<char>)
    ensures
        value_of(customized(t, cfg).props, n) == custom_value(t, cfg, n),
{
    let k = kept_props(t, cfg, t.props);
    let ro = rotation_props(t, cfg);
    let le = left_props(t, cfg);
    let ri = right_props(t, cfg);
    let hp = hp_props(t, cfg);
    lemma_names_differ();
    lemma_kept_value(t, cfg, t.props, n);
    lemma_value_concat(k, ro, n);
    lemma_value_concat(k + ro, le, n);
    lemma_value_concat(k + ro + le, ri, n);
    lemma_value_concat(k + ro + le + ri, hp, n);
    if ro.len() > 0 {
        lemma_value_one(ro[0], n);
    }
    if le.len() > 0 {
        lemma_value_two(le[0], le[1], n);
    }
    if ri.len() > 0 {
        lemma_value_two(ri[0], ri[1], n);
    }
    if hp.len() > 0 {
        assert(hp =~= seq![hp[0]]);
        lemma_value_one(hp[0], n);
    }
}

proof fn lemma_kind_kept(t: Node, cfg: PanelConfig)
    ensures
        is_panel(customized(t, cfg)) == is_panel(t),
        is_joypad(customized(t, cfg)) == is_joypad(t),
{
    lemma_names_differ();
    reveal_strlit("invert-absx");
    reveal_strlit("invert-absy");
    reveal_strlit("joypad-name");
    reveal_strlit("button-adc-scale");
    reveal_strlit("io-channel-names");
    reveal_strlit("compatible");
    assert("joypad-name"@[0] != "invert-absx"@[0]);
    assert("joypad-name"@[0] != "invert-absy"@[0]);
    assert("joypad-name"@.len() == 11);
    assert("button-adc-scale"@.len() == 16);
    assert("io-channel-names"@.len() == 16);
    assert("compatible"@.len() == 10);
    lemma_custom_value(t, cfg, "panel_description"@);
    lemma_custom_value(t, cfg, "joypad-name"@);
    lemma_custom_value(t, cfg, "button-adc-scale"@);
    lemma_custom_value(t, cfg, "io-channel-names"@);
    lemma_custom_value(t, cfg, "compatible"@);
}

/// Of two customizations the last one counts: every property has the value
/// that it alone would give, except the headphone polarity, which is flipped
/// by each, and the rotation, which a rotation of zero leaves alone.
pub proof fn lemma_last_customization_counts(
    t: Node,
    first: PanelConfig,
    last: PanelConfig,
    n: Seq<char>,
)
    requires
        n != "simple-audio-card,hp-det-gpio"@,
        n != "rotation"@ || last.rotation != 0,
    ensures
        value_of(customized(customized(t, first), last).props, n) == value_of(
            customized(t, last).props,
            n,
        ),
{
    let u = customized(t, first);
    lemma_names_differ();
    lemma_kind_kept(t, first);
    lemma_custom_value(t, first, n);
    lemma_custom_value(t, last, n);
    lemma_custom_value(u, last, n);
}

proof fn lemma_kept_concat(t: Node, cfg: PanelConfig, a: Seq<Prop>, b: Seq<Prop>)
    ensures
        kept_props(t, cfg, a + b) == kept_props(t, cfg, a) + kept_props(t, cfg, b),
    decreases b.len(),
{
    if b.len() == 0 {
        assert(a + b =~= a);
        assert(kept_props(t, cfg, b) =~= Seq::<Prop>::empty());
        assert(kept_props(t, cfg, a) + kept_props(t, cfg, b) =~= kept_props(t, cfg, a));
    } else {
        lemma_kept_concat(t, cfg, a, b.drop_last());
        assert((a + b).drop_last() =~= a + b.drop_last());
        assert((a + b).last() == b.last());
        assert(kept_props(t, cfg, a + b) =~= kept_props(t, cfg, a) + kept_props(t, cfg, b));
    }
}

proof fn lemma_none_kept(t: Node, cfg: PanelConfig, ps: Seq<Prop>)
    requires
        forall|i: int| 0 <= i < ps.len() ==> replaced_in(t, cfg, (#[trigger] ps[i]).name),
    ensures
        kept_props(t, cfg, ps) == Seq::<Prop>::empty(),
    decreases ps.len(),
{
    if ps.len() > 0 {
        let pre = ps.drop_last();
        assert forall|i: int| 0 <= i < pre.len() implies replaced_in(
            t,
            cfg,
            (#[trigger] pre[i]).name,
        ) by {
            assert(pre[i] == ps[i]);
        }
        assert(replaced_in(t, cfg, ps[ps.len() - 1].name));
        lemma_none_kept(t, cfg, pre);
    }
}

/// What was kept is kept again.
proof fn lemma_kept_again(t: Node, u: Node, cfg: PanelConfig, ps: Seq<Prop>)
    requires
        is_panel(t) == is_panel(u),
        is_joypad(t) == is_joypad(u),
    ensures
        kept_props(u, cfg, kept_props(t, cfg, ps)) == kept_props(t, cfg, ps),
    decreases ps.len(),
{
    if ps.len() > 0 {
        let pre = ps.drop_last();
        lemma_kept_again(t, u, cfg, pre);
        if !replaced_in(t, cfg, ps.last().name) {
            let kept = kept_props(t, cfg, pre);
            assert(kept.push(ps.last()).drop_last() =~= kept);
        }
    }
}

proof fn lemma_props_again(t: Node, cfg: PanelConfig)
    requires
        !cfg.hp_invert,
    ensures
        custom_props(customized(t, cfg), cfg) == custom_props(t, cfg),
{
    let u = customized(t, cfg);
    let k = kept_props(t, cfg, t.props);
    let ro = rotation_props(t, cfg);
    let le = left_props(t, cfg);
    let ri = right_props(t, cfg);
    let hp = hp_props(t, cfg);
    lemma_names_differ();
    lemma_kind_kept(t, cfg);
    lemma_custom_value(t, cfg, "simple-audio-card,hp-det-gpio"@);
    lemma_kept_concat(u, cfg, k + ro + le + ri, hp);
    lemma_kept_concat(u, cfg, k + ro + le, ri);
    lemma_kept_concat(u, cfg, k + ro, le);
    lemma_kept_concat(u, cfg, k, ro);
    lemma_kept_again(t, u, cfg, t.props);
    lemma_none_kept(u, cfg, ro);
    lemma_none_kept(u, cfg, le);
    lemma_none_kept(u, cfg, ri);
    lemma_none_kept(u, cfg, hp);
    assert(kept_props(u, cfg, u.props) =~= k);
    assert(hp_props(u, cfg) =~= hp);
}

/// The same settings applied again change nothing. Settings that flip the
/// headphone polarity would flip it back.
pub proof fn lemma_customized_again(t: Node, cfg: PanelConfig)
    requires
        !cfg.hp_invert,
    ensures
        customized(customized(t, cfg), cfg) == customized(t, cfg),
    decreases t,
{
    let u = customized(t, cfg);
    let w = customized(u, cfg);
    lemma_props_again(t, cfg);
    assert forall|i: int| 0 <= i < u.children.len() implies w.children[i] == u.children[i] by {
        lemma_customized_again(t.children[i], cfg);
    }
    assert(w.children =~= u.children);
}

/// Flipping the headphone polarity twice gives the first polarity back.
pub proof fn lemma_flip_twice(v: Seq<u8>)
    requires
        v.len() >= 12,
        be_word(v, 8) == 0 || be_word(v, 8) == 1,
    ensures
        flipped(flipped(v)) == v,
        flipped(v) != v,
{
    let n = be_word(v, 8);
    let m: u32 = if n == 0 {
        1
    } else {
        0
    };
    let f = flipped(v);
    assert(f.subrange(8, 12) =~= be32(m));
    crate::bytes::lemma_be_word_in(f, 8, m);
    assert(f.take(8) =~= v.take(8));
    assert(f.skip(12) =~= v.skip(12));
    assert(v.subrange(8, 12) =~= be32(n)) by {
        assert(n == v[8] * 0x1000000 + v[9] * 0x10000 + v[10] * 0x100 + v[11]);
    }
    assert(flipped(f) =~= v);
}

// ---------------------------------------------------------------------------
// The whole tree
// ---------------------------------------------------------------------------

/// What holds of every node of a tree.
pub open spec fn every_node(t: Node, f: spec_fn(Node) -> bool) -> bool
    decreases t,
{
    f(t) && forall|i: int|
        0 <= i < t.children.len() ==> every_node(#[trigger] t.children[i], f)
}

/// What holds of some node of a tree.
pub open spec fn some_node(t: Node, f: spec_fn(Node) -> bool) -> bool
    decreases t,
{
    f(t) || exists|i: int|
        0 <= i < t.children.len() && some_node(#[trigger] t.children[i], f)
}

/// A property that no setting touches is found with the same value.
pub proof fn lemma_search_kept(t: Node, cfg: PanelConfig, n: Seq<char>)
    requires
        n != "rotation"@,
        !is_stick(n),
        n != "simple-audio-card,hp-det-gpio"@,
    ensures
        search(customized(t, cfg), n) == search(t, n),
    decreases t, 0int,
{
    lemma_custom_value(t, cfg, n);
    lemma_search_all_kept(t.children, customized(t, cfg).children, cfg, n);
}

proof fn lemma_search_all_kept(ts: Seq<Node>, us: Seq<Node>, cfg: PanelConfig, n: Seq<char>)
    requires
        n != "rotation"@,
        !is_stick(n),
        n != "simple-audio-card,hp-det-gpio"@,
        ts.len() == us.len(),
        forall|i: int| 0 <= i < ts.len() ==> us[i] == customized(#[trigger] ts[i], cfg),
    ensures
        search_all(us, n) == search_all(ts, n),
    decreases ts, ts.len(),
{
    if ts.len() > 0 {
        assert(us[0] == customized(ts[0], cfg));
        lemma_search_kept(ts[0], cfg, n);
        let ts1 = ts.subrange(1, ts.len() as int);
        let us1 = us.subrange(1, us.len() as int);
        assert forall|i: int| 0 <= i < ts1.len() implies us1[i] == customized(
            #[trigger] ts1[i],
            cfg,
        ) by {
            assert(ts1[i] == ts[i + 1]);
        }
        lemma_search_all_kept(ts1, us1, cfg, n);
    }
}

/// Every path that leads to a node leads to its customized copy: no node is
/// lost, moved or renamed.
pub proof fn lemma_paths_kept(t: Node, cfg: PanelConfig, path: Seq<char>)
    ensures
        lookup(customized(t, cfg), path) == (match lookup(t, path) {
            Some(n) => Some(customized(n, cfg)),
            None => None,
        }),
    decreases t, 0int,
{
    let n = upto(path, '/');
    if n + 1 < path.len() {
        lemma_path_first_kept(t.children, customized(t, cfg).children, cfg, path.skip(n + 1));
    }
}

proof fn lemma_path_first_kept(ts: Seq<Node>, us: Seq<Node>, cfg: PanelConfig, path: Seq<char>)
    requires
        ts.len() == us.len(),
        forall|i: int| 0 <= i < ts.len() ==> us[i] == customized(#[trigger] ts[i], cfg),
    ensures
        lookup_first(us, path) == (match lookup_first(ts, path) {
            Some(n) => Some(customized(n, cfg)),
            None => None,
        }),
    decreases ts, ts.len(),
{
    if ts.len() > 0 {
        assert(us[0] == customized(ts[0], cfg));
        lemma_paths_kept(ts[0], cfg, path);
        let ts1 = ts.subrange(1, ts.len() as int);
        let us1 = us.subrange(1, us.len() as int);
        assert forall|i: int| 0 <= i < ts1.len() implies us1[i] == customized(
            #[trigger] ts1[i],
            cfg,
        ) by {
            assert(ts1[i] == ts[i + 1]);
        }
        lemma_path_first_kept(ts1, us1, cfg, path);
    }
}

// ---------------------------------------------------------------------------
// The settings read back
// ---------------------------------------------------------------------------

/// Only panel nodes have a rotation.
pub open spec fn rotation_on_panels(t: Node) -> bool {
    every_node(t, |n: Node| number_of(value_of(n.props, "rotation"@)) is Some ==> is_panel(n))
}

/// Only joypad nodes invert an axis.
pub open spec fn sticks_on_joypads(t: Node) -> bool {
    every_node(
        t,
        |n: Node| has(n, "invert-absx"@) || has(n, "invert-absrx"@) ==> is_joypad(n),
    )
}

proof fn lemma_rotation(t: Node, cfg: PanelConfig)
    requires
        cfg.rotation != 0,
        rotation_on_panels(t),
    ensures
        search_number(customized(t, cfg), "rotation"@) == (if search(t, "panel_description"@)
            is Some {
            Some(cfg.rotation)
        } else {
            None
        }),
    decreases t, 0int,
{
    lemma_names_differ();
    lemma_custom_value(t, cfg, "rotation"@);
    lemma_be_round_trip(cfg.rotation);
    lemma_rotation_all(t.children, customized(t, cfg).children, cfg);
}

proof fn lemma_rotation_all(ts: Seq<Node>, us: Seq<Node>, cfg: PanelConfig)
    requires
        cfg.rotation != 0,
        forall|i: int| 0 <= i < ts.len() ==> rotation_on_panels(#[trigger] ts[i]),
        ts.len() == us.len(),
        forall|i: int| 0 <= i < ts.len() ==> us[i] == customized(#[trigger] ts[i], cfg),
    ensures
        search_number_all(us, "rotation"@) == (if search_all(ts, "panel_description"@) is Some {
            Some(cfg.rotation)
        } else {
            None
        }),
    decreases ts, ts.len(),
{
    if ts.len() > 0 {
        assert(us[0] == customized(ts[0], cfg));
        lemma_rotation(ts[0], cfg);
        let ts1 = ts.subrange(1, ts.len() as int);
        let us1 = us.subrange(1, us.len() as int);
        assert forall|i: int| 0 <= i < ts1.len() implies us1[i] == customized(
            #[trigger] ts1[i],
            cfg,
        ) && rotation_on_panels(ts1[i]) by {
            assert(ts1[i] == ts[i + 1]);
        }
        lemma_rotation_all(ts1, us1, cfg);
    }
}

proof fn lemma_rotation_kept(t: Node, cfg: PanelConfig)
    requires
        cfg.rotation == 0,
    ensures
        search_number(customized(t, cfg), "rotation"@) == search_number(t, "rotation"@),
    decreases t, 0int,
{
    lemma_names_differ();
    lemma_custom_value(t, cfg, "rotation"@);
    lemma_rotation_kept_all(t.children, customized(t, cfg).children, cfg);
}

proof fn lemma_rotation_kept_all(ts: Seq<Node>, us: Seq<Node>, cfg: PanelConfig)
    requires
        cfg.rotation == 0,
        ts.len() == us.len(),
        forall|i: int| 0 <= i < ts.len() ==> us[i] == customized(#[trigger] ts[i], cfg),
    ensures
        search_number_all(us, "rotation"@) == search_number_all(ts, "rotation"@),
    decreases ts, ts.len(),
{
    if ts.len() > 0 {
        assert(us[0] == customized(ts[0], cfg));
        lemma_rotation_kept(ts[0], cfg);
        let ts1 = ts.subrange(1, ts.len() as int);
        let us1 = us.subrange(1, us.len() as int);
        assert forall|i: int| 0 <= i < ts1.len() implies us1[i] == customized(
            #[trigger] ts1[i],
            cfg,
        ) by {
            assert(ts1[i] == ts[i + 1]);
        }
        lemma_rotation_kept_all(ts1, us1, cfg);
    }
}

/// Whether the settings invert the axis `n`.
spec fn inverts(cfg: PanelConfig, n: Seq<char>) -> bool {
    if n == "invert-absx"@ {
        cfg.invert_left_stick
    } else {
        cfg.invert_right_stick
    }
}

proof fn lemma_sticks(t: Node, cfg: PanelConfig, n: Seq<char>)
    requires
        n == "invert-absx"@ || n == "invert-absrx"@,
        sticks_on_joypads(t),
    ensures
        search(customized(t, cfg), n) is Some <==> inverts(cfg, n) && some_node(
            t,
            |m: Node| is_joypad(m),
        ),
    decreases t, 0int,
{
    lemma_names_differ();
    lemma_custom_value(t, cfg, n);
    lemma_sticks_all(t.children, customized(t, cfg).children, cfg, n);
}

proof fn lemma_sticks_all(ts: Seq<Node>, us: Seq<Node>, cfg: PanelConfig, n: Seq<char>)
    requires
        n == "invert-absx"@ || n == "invert-absrx"@,
        forall|i: int| 0 <= i < ts.len() ==> sticks_on_joypads(#[trigger] ts[i]),
        ts.len() == us.len(),
        forall|i: int| 0 <= i < ts.len() ==> us[i] == customized(#[trigger] ts[i], cfg),
    ensures
        search_all(us, n) is Some <==> inverts(cfg, n) && exists|i: int|
            0 <= i < ts.len() && some_node(#[trigger] ts[i], |m: Node| is_joypad(m)),
    decreases ts, ts.len(),
{
    if ts.len() > 0 {
        let f = |m: Node| is_joypad(m);
        assert(us[0] == customized(ts[0], cfg));
        lemma_sticks(ts[0], cfg, n);
        let ts1 = ts.subrange(1, ts.len() as int);
        let us1 = us.subrange(1, us.len() as int);
        assert forall|i: int| 0 <= i < ts1.len() implies us1[i] == customized(
            #[trigger] ts1[i],
            cfg,
        ) && sticks_on_joypads(ts1[i]) by {
            assert(ts1[i] == ts[i + 1]);
        }
        lemma_sticks_all(ts1, us1, cfg, n);
        if exists|i: int| 0 <= i < ts.len() && some_node(#[trigger] ts[i], f) {
            let i = choose|i: int| 0 <= i < ts.len() && some_node(#[trigger] ts[i], f);
            if i > 0 {
                assert(ts1[i - 1] == ts[i]);
            }
        }
        if exists|i: int| 0 <= i < ts1.len() && some_node(#[trigger] ts1[i], f) {
            let i = choose|i: int| 0 <= i < ts1.len() && some_node(#[trigger] ts1[i], f);
            assert(ts1[i] == ts[i + 1]);
        }
    }
}

/// Settings can be read back from the tree they were baked into: the tree
/// has a panel and a joypad, and no other node carries their properties. A
/// rotation of zero leaves the rotation of the tree alone.
pub proof fn lemma_config_in_custom(t: Node, cfg: PanelConfig)
    requires
        search(t, "panel_description"@) is Some,
        some_node(t, |m: Node| is_joypad(m)),
        rotation_on_panels(t),
        sticks_on_joypads(t),
        cfg.rotation != 0 || config_in(t).rotation == 0,
    ensures
        config_in(customized(t, cfg)) == (PanelConfig { hp_invert: false, ..cfg }),
{
    if cfg.rotation != 0 {
        lemma_rotation(t, cfg);
    } else {
        lemma_rotation_kept(t, cfg);
    }
    lemma_names_differ();
    lemma_sticks(t, cfg, "invert-absx"@);
    lemma_sticks(t, cfg, "invert-absrx"@);
}

// ---------------------------------------------------------------------------
// The bytes
// ---------------------------------------------------------------------------

proof fn lemma_props_plain(st: Seq<u8>, strs: Seq<u8>, pos: int, ps: Seq<Prop>)
    requires
        props_at(st, strs, pos, ps) is Some,
    ensures
        forall|i: int| 0 <= i < ps.len() ==> no_nul(encode_utf8(#[trigger] ps[i].name)),
    decreases ps.len(),
{
    if ps.len() > 0 {
        lemma_props_plain(st, strs, prop_at(st, strs, pos, ps[0])->0, ps.skip(1));
        assert forall|i: int| 0 <= i < ps.len() implies no_nul(
            encode_utf8(#[trigger] ps[i].name),
        ) by {
            if i > 0 {
                assert(ps[i] == ps.skip(1)[i - 1]);
            }
        }
    }
}

proof fn lemma_node_plain(st: Seq<u8>, strs: Seq<u8>, pos: int, t: Node)
    requires
        node_at(st, strs, pos, t) is Some,
    ensures
        plain(t),
    decreases t, 0int,
{
    let p = pos + 4 + crate::tree::aligned(encode_utf8(t.name).len() as int + 1);
    lemma_props_plain(st, strs, p, t.props);
    lemma_nodes_plain(st, strs, props_at(st, strs, p, t.props)->0, t.children);
}

proof fn lemma_nodes_plain(st: Seq<u8>, strs: Seq<u8>, pos: int, ts: Seq<Node>)
    requires
        nodes_at(st, strs, pos, ts) is Some,
    ensures
        forall|i: int| 0 <= i < ts.len() ==> plain(#[trigger] ts[i]),
    decreases ts, ts.len(),
{
    if ts.len() > 0 {
        lemma_node_plain(st, strs, pos, ts[0]);
        let rest = ts.subrange(1, ts.len() as int);
        lemma_nodes_plain(st, strs, node_at(st, strs, pos, ts[0])->0, rest);
        assert forall|i: int| 0 <= i < ts.len() implies plain(#[trigger] ts[i]) by {
            if i > 0 {
                assert(ts[i] == rest[i - 1]);
            }
        }
    }
}

proof fn lemma_root_props_plain(st: Seq<u8>, strs: Seq<u8>, pos: int, ps: Seq<Prop>)
    requires
        root_props_at(st, strs, pos, ps) is Some,
    ensures
        forall|i: int| 0 <= i < ps.len() ==> no_nul(encode_utf8(#[trigger] ps[i].name)),
    decreases ps.len(),
{
    if ps.len() > 0 {
        let e = prop_at(st, strs, skip_nops(st, pos), ps[0])->0;
        lemma_root_props_plain(st, strs, e, ps.skip(1));
        assert forall|i: int| 0 <= i < ps.len() implies no_nul(
            encode_utf8(#[trigger] ps[i].name),
        ) by {
            if i > 0 {
                assert(ps[i] == ps.skip(1)[i - 1]);
            }
        }
    }
}

proof fn lemma_root_nodes_plain(st: Seq<u8>, strs: Seq<u8>, pos: int, ts: Seq<Node>)
    requires
        root_nodes_at(st, strs, pos, ts) is Some,
    ensures
        forall|i: int| 0 <= i < ts.len() ==> plain(#[trigger] ts[i]),
    decreases ts.len(),
{
    if ts.len() > 0 {
        let p = skip_nops(st, pos);
        lemma_node_plain(st, strs, p, ts[0]);
        lemma_root_nodes_plain(st, strs, node_at(st, strs, p, ts[0])->0, ts.skip(1));
        assert forall|i: int| 0 <= i < ts.len() implies plain(#[trigger] ts[i]) by {
            if i > 0 {
                assert(ts[i] == ts.skip(1)[i - 1]);
            }
        }
    }
}

proof fn lemma_root_plain(st: Seq<u8>, strs: Seq<u8>, pos: int, t: Node)
    requires
        root_at(st, strs, pos, t),
    ensures
        plain(t),
{
    lemma_root_props_plain(st, strs, body_of(pos, t.name), t.props);
    lemma_root_nodes_plain(st, strs, root_kids(st, strs, pos, t), t.children);
}

/// A name of ASCII characters has no zero byte.
pub proof fn lemma_ascii_name(s: Seq<char>)
    requires
        forall|i: int| 0 <= i < s.len() ==> '\0' < #[trigger] s[i] <= '\u{7f}',
    ensures
        no_nul(encode_utf8(s)),
{
    is_ascii_chars_encode_utf8(s);
    assert forall|i: int| 0 <= i < encode_utf8(s).len() implies #[trigger] encode_utf8(s)[i]
        != 0 by {
        assert(s[i] as u8 == encode_utf8(s)[i]);
    }
}

proof fn lemma_set_names()
    ensures
        no_nul(encode_utf8("rotation"@)),
        no_nul(encode_utf8("invert-absx"@)),
        no_nul(encode_utf8("invert-absy"@)),
        no_nul(encode_utf8("invert-absrx"@)),
        no_nul(encode_utf8("invert-absry"@)),
        no_nul(encode_utf8("simple-audio-card,hp-det-gpio"@)),
{
    reveal_strlit("rotation");
    lemma_ascii_name("rotation"@);
    reveal_strlit("invert-absx");
    lemma_ascii_name("invert-absx"@);
    reveal_strlit("invert-absy");
    lemma_ascii_name("invert-absy"@);
    reveal_strlit("invert-absrx");
    lemma_ascii_name("invert-absrx"@);
    reveal_strlit("invert-absry");
    lemma_ascii_name("invert-absry"@);
    reveal_strlit("simple-audio-card,hp-det-gpio");
    lemma_ascii_name("simple-audio-card,hp-det-gpio"@);
}

proof fn lemma_kept_plain(t: Node, cfg: PanelConfig, ps: Seq<Prop>)
    requires
        forall|i: int| 0 <= i < ps.len() ==> no_nul(encode_utf8(#[trigger] ps[i].name)),
    ensures
        forall|i: int|
            0 <= i < kept_props(t, cfg, ps).len() ==> no_nul(
                encode_utf8(#[trigger] kept_props(t, cfg, ps)[i].name),
            ),
    decreases ps.len(),
{
    if ps.len() > 0 {
        let pre = ps.drop_last();
        assert forall|i: int| 0 <= i < pre.len() implies no_nul(
            encode_utf8(#[trigger] pre[i].name),
        ) by {
            assert(pre[i] == ps[i]);
        }
        lemma_kept_plain(t, cfg, pre);
        assert(no_nul(encode_utf8(ps[ps.len() - 1].name)));
        let kept = kept_props(t, cfg, ps);
        assert forall|i: int| 0 <= i < kept.len() implies no_nul(
            encode_utf8(#[trigger] kept[i].name),
        ) by {
            if i < kept_props(t, cfg, pre).len() {
                assert(kept[i] == kept_props(t, cfg, pre)[i]);
            }
        }
    }
}

proof fn lemma_custom_plain(t: Node, cfg: PanelConfig)
    requires
        plain(t),
    ensures
        plain(customized(t, cfg)),
    decreases t,
{
    let u = customized(t, cfg);
    let k = kept_props(t, cfg, t.props);
    lemma_kept_plain(t, cfg, t.props);
    lemma_set_names();
    assert forall|i: int| 0 <= i < u.props.len() implies no_nul(
        encode_utf8(#[trigger] u.props[i].name),
    ) by {
        if i < k.len() {
            assert(u.props[i] == k[i]);
        }
    }
    assert forall|i: int| 0 <= i < u.children.len() implies plain(#[trigger] u.children[i]) by {
        assert(plain(t.children[i]));
        lemma_custom_plain(t.children[i], cfg);
    }
}

/// A customized overlay can be opened again, and holds the customized tree.
pub proof fn lemma_custom_opens(data: Seq<u8>, cfg: PanelConfig)
    requires
        readable(data),
        custom_fits(data, cfg),
        overlay_root(data) is Ok,
    ensures
        custom_dtbo(data, cfg) is Ok,
        readable(custom_dtbo(data, cfg)->Ok_0),
        overlay_root(custom_dtbo(data, cfg)->Ok_0) == Ok::<Node, Seq<char>>(
            customized(overlay_root(data)->Ok_0, cfg),
        ),
{
    let t = choose|t: Node| tree_in(data, t);
    lemma_tree_of(data, t);
    lemma_root_plain(struct_block(data), strings_block(data), root_start(data), t);
    lemma_custom_plain(t, cfg);
    let u = customized(t, cfg);
    lemma_blob_holds_tree(u);
    lemma_tree_of(blob(node_events(u)), u);
}

/// An overlay with settings baked in does not change by a byte when the same
/// settings are baked in again.
pub proof fn lemma_custom_dtbo_again(data: Seq<u8>, cfg: PanelConfig)
    requires
        readable(data),
        custom_fits(data, cfg),
        overlay_root(data) is Ok,
        !cfg.hp_invert,
    ensures
        custom_dtbo(custom_dtbo(data, cfg)->Ok_0, cfg) == custom_dtbo(data, cfg),
        custom_fits(custom_dtbo(data, cfg)->Ok_0, cfg),
{
    lemma_custom_opens(data, cfg);
    lemma_customized_again(overlay_root(data)->Ok_0, cfg);
}

/// The panel description survives every customization.
pub proof fn lemma_panel_description_kept(data: Seq<u8>, cfg: PanelConfig)
    requires
        readable(data),
        custom_fits(data, cfg),
        overlay_root(data) is Ok,
    ensures
        panel_description(custom_dtbo(data, cfg)->Ok_0) == panel_description(data),
{
    lemma_custom_opens(data, cfg);
    lemma_names_differ();
    lemma_search_kept(overlay_root(data)->Ok_0, cfg, "panel_description"@);
}

/// Settings can be read back from the overlay they were baked into.
pub proof fn lemma_config_read_back(data: Seq<u8>, cfg: PanelConfig)
    requires
        readable(data),
        custom_fits(data, cfg),
        overlay_root(data) matches Ok(t) && search(t, "panel_description"@) is Some && some_node(
            t,
            |m: Node| is_joypad(m),
        ) && rotation_on_panels(t) && sticks_on_joypads(t),
        cfg.rotation != 0 || config_of(data).rotation == 0,
    ensures
        config_of(custom_dtbo(data, cfg)->Ok_0) == (PanelConfig { hp_invert: false, ..cfg }),
{
    lemma_custom_opens(data, cfg);
    lemma_config_in_custom(overlay_root(data)->Ok_0, cfg);
}

} // verus!
