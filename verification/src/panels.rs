//! The panels that images are shipped with overlays for.

use crate::text::{ends, same};
use vstd::prelude::*;

verus! {

/// A panel: a short id, a name for people, and the file of its overlay.
#[derive(Debug, Clone)]
pub struct Panel {
    pub id: String,
    pub name: String,
    pub dtbo: String,
}

pub ghost struct PanelView {
    pub id: Seq<char>,
    pub name: Seq<char>,
    pub dtbo: Seq<char>,
}

impl Panel {
    pub open spec fn view(&self) -> PanelView {
        PanelView { id: self.id@, name: self.name@, dtbo: self.dtbo@ }
    }
}

pub open spec fn panel_views(v: Seq<Panel>) -> Seq<PanelView> {
    v.map_values(|p: Panel| p.view())
}

pub open spec fn entry(id: &str, name: &str, dtbo: &str) -> PanelView {
    PanelView { id: id@, name: name@, dtbo: dtbo@ }
}

/// The panels of the original console.
pub open spec fn original_panels() -> Seq<PanelView> {
    seq![
        entry("0", "Panel 0", "panel0.dtbo"),
        entry("1", "Panel 1", "panel1.dtbo"),
        entry("2", "Panel 2", "panel2.dtbo"),
        entry("3", "Panel 3", "panel3.dtbo"),
        entry("4", "Panel 4", "panel4.dtbo"),
        entry("4v22", "Panel 4 V22", "panel4-v22.dtbo"),
        entry("5", "Panel 5", "panel5.dtbo"),
        entry("6", "Panel 6", "panel6.dtbo"),
        entry("r35s", "R35S Rumble", "r35s-rumble.dtbo"),
        entry("r36sp", "R36S Plus", "r36s-plus.dtbo"),
        entry("r46h", "R46H (1024x768)", "r46h.dtbo"),
        entry("rgb20s", "RGB20S", "rgb20s.dtbo"),
    ]
}

/// The panels of the clones.
pub open spec fn clone_panels() -> Seq<PanelView> {
    seq![
        entry("C1", "Clone 1 (ST7703)", "clone_panel_1.dtbo"),
        entry("C2", "Clone 2 (ST7703)", "clone_panel_2.dtbo"),
        entry("C3", "Clone 3 (NV3051D)", "clone_panel_3.dtbo"),
        entry("C4", "Clone 4 (NV3051D)", "clone_panel_4.dtbo"),
        entry("C5", "Clone 5 (ST7703)", "clone_panel_5.dtbo"),
        entry("C6", "Clone 6 (NV3051D)", "clone_panel_6.dtbo"),
        entry("C7", "Clone 7 (JD9365DA)", "clone_panel_7.dtbo"),
        entry("C8", "Clone 8 G80CA (ST7703)", "clone_panel_8.dtbo"),
        entry("C9", "Clone 9 (NV3051D)", "clone_panel_9.dtbo"),
        entry("C10", "Clone 10 (ST7703)", "clone_panel_10.dtbo"),
        entry("R36Max", "R36 Max (ST7703 720x720)", "r36_max.dtbo"),
        entry("RX6S", "RX6S (NV3051D)", "rx6s.dtbo"),
    ]
}

/// The panels of a kind of console; none for a kind that is not known.
pub open spec fn panels_of(console: Seq<char>) -> Seq<PanelView> {
    if console == "original"@ {
        original_panels()
    } else if console == "clone"@ {
        clone_panels()
    } else {
        Seq::empty()
    }
}

fn add(list: &mut Vec<Panel>, id: &str, name: &str, dtbo: &str)
    ensures
        panel_views(final(list)@) == panel_views(old(list)@).push(entry(id, name, dtbo)),
{
    list.push(Panel { id: id.to_string(), name: name.to_string(), dtbo: dtbo.to_string() });
    assert(panel_views(list@) =~= panel_views(old(list)@).push(entry(id, name, dtbo)));
}

/// The panels of a kind of console.
pub fn get_panels(console: &str) -> (r: Vec<Panel>)
    ensures
        panel_views(r@) == panels_of(console@),
{
    let mut r: Vec<Panel> = Vec::new();
    assert(panel_views(r@) =~= Seq::<PanelView>::empty());
    if same(console, "original") {
        self::add(&mut r, "0", "Panel 0", "panel0.dtbo");
        self::add(&mut r, "1", "Panel 1", "panel1.dtbo");
        self::add(&mut r, "2", "Panel 2", "panel2.dtbo");
        self::add(&mut r, "3", "Panel 3", "panel3.dtbo");
        self::add(&mut r, "4", "Panel 4", "panel4.dtbo");
        self::add(&mut r, "4v22", "Panel 4 V22", "panel4-v22.dtbo");
        self::add(&mut r, "5", "Panel 5", "panel5.dtbo");
        self::add(&mut r, "6", "Panel 6", "panel6.dtbo");
        self::add(&mut r, "r35s", "R35S Rumble", "r35s-rumble.dtbo");
        self::add(&mut r, "r36sp", "R36S Plus", "r36s-plus.dtbo");
        self::add(&mut r, "r46h", "R46H (1024x768)", "r46h.dtbo");
        self::add(&mut r, "rgb20s", "RGB20S", "rgb20s.dtbo");
        assert(panel_views(r@) =~= original_panels());
    } else if same(console, "clone") {
        self::add(&mut r, "C1", "Clone 1 (ST7703)", "clone_panel_1.dtbo");
        self::add(&mut r, "C2", "Clone 2 (ST7703)", "clone_panel_2.dtbo");
        self::add(&mut r, "C3", "Clone 3 (NV3051D)", "clone_panel_3.dtbo");
        self::add(&mut r, "C4", "Clone 4 (NV3051D)", "clone_panel_4.dtbo");
        self::add(&mut r, "C5", "Clone 5 (ST7703)", "clone_panel_5.dtbo");
        self::add(&mut r, "C6", "Clone 6 (NV3051D)", "clone_panel_6.dtbo");
        self::add(&mut r, "C7", "Clone 7 (JD9365DA)", "clone_panel_7.dtbo");
        self::add(&mut r, "C8", "Clone 8 G80CA (ST7703)", "clone_panel_8.dtbo");
        self::add(&mut r, "C9", "Clone 9 (NV3051D)", "clone_panel_9.dtbo");
        self::add(&mut r, "C10", "Clone 10 (ST7703)", "clone_panel_10.dtbo");
        self::add(&mut r, "R36Max", "R36 Max (ST7703 720x720)", "r36_max.dtbo");
        self::add(&mut r, "RX6S", "RX6S (NV3051D)", "rx6s.dtbo");
        assert(panel_views(r@) =~= clone_panels());
    }
    r
}

/// All panels, those of the original console first.
pub open spec fn all_panels() -> Seq<PanelView> {
    panels_of("original"@) + panels_of("clone"@)
}

/// No two panels share an id, a name or a file, whichever console they are
/// for, so that each of the three names one panel.
pub proof fn lemma_all_panels_distinct()
    ensures
        all_panels() == original_panels() + clone_panels(),
        forall|i: int, j: int|
            0 <= i < j < all_panels().len() ==> {
                &&& (#[trigger] all_panels()[i]).id != (#[trigger] all_panels()[j]).id
                &&& all_panels()[i].name != all_panels()[j].name
                &&& all_panels()[i].dtbo != all_panels()[j].dtbo
            },
{
    lemma_consoles();
    let all = all_panels();
    assert forall|i: int, j: int| 0 <= i < j < all.len() implies {
        &&& (#[trigger] all[i]).id != (#[trigger] all[j]).id
        &&& all[i].name != all[j].name
        &&& all[i].dtbo != all[j].dtbo
    } by {
        lemma_places(i);
        lemma_places(j);
    }
}

/// No two panels of a console share an id, a name or a file.
pub proof fn lemma_panels_distinct(console: Seq<char>)
    ensures
        forall|i: int, j: int|
            0 <= i < j < panels_of(console).len() ==> {
                &&& (#[trigger] panels_of(console)[i]).id != (#[trigger] panels_of(console)[j]).id
                &&& panels_of(console)[i].name != panels_of(console)[j].name
                &&& panels_of(console)[i].dtbo != panels_of(console)[j].dtbo
            },
{
    lemma_all_panels_distinct();
    let v = panels_of(console);
    let all = all_panels();
    assert forall|i: int, j: int| 0 <= i < j < v.len() implies {
        &&& (#[trigger] v[i]).id != (#[trigger] v[j]).id
        &&& v[i].name != v[j].name
        &&& v[i].dtbo != v[j].dtbo
    } by {
        let first: int = if console == "original"@ {
            0
        } else {
            12
        };
        assert(all[first + i] == v[i]);
        assert(all[first + j] == v[j]);
    }
}

/// The file of every panel is an overlay, and no path leads elsewhere.
pub proof fn lemma_panel_files(console: Seq<char>)
    ensures
        forall|i: int|
            0 <= i < panels_of(console).len() ==> is_overlay_file(
                (#[trigger] panels_of(console)[i]).dtbo,
            ),
{
    lemma_original_files();
    lemma_clone_files();
}

/// The name of an overlay file, without a directory.
pub open spec fn is_overlay_file(f: Seq<char>) -> bool {
    ends(f, ".dtbo"@) && !f.contains('/')
}

proof fn lemma_consoles()
    ensures
        all_panels() == original_panels() + clone_panels(),
{
    reveal_strlit("original");
    reveal_strlit("clone");
    assert("original"@.len() != "clone"@.len());
}

/// The place of a panel with this id among all panels.
spec fn id_place(s: Seq<char>) -> int {
    if s.len() == 1 {
        if s[0] <= '4' {
            s[0] as int - 48
        } else {
            s[0] as int - 47
        }
    } else if s.len() == 2 {
        s[1] as int - 37
    } else if s.len() == 3 {
        21
    } else if s.len() == 4 {
        if s[0] == '4' {
            5
        } else if s[0] == 'R' {
            23
        } else if s[1] == '3' {
            8
        } else {
            10
        }
    } else if s.len() == 5 {
        9
    } else if s[0] == 'r' {
        11
    } else {
        22
    }
}

/// The place of a panel with this name among all panels.
spec fn name_place(s: Seq<char>) -> int {
    if s[0] == 'P' {
        if s.len() > 7 {
            5
        } else if s[6] <= '4' {
            s[6] as int - 48
        } else {
            s[6] as int - 47
        }
    } else if s[0] == 'C' {
        if s[7] == ' ' {
            s[6] as int - 37
        } else {
            21
        }
    } else if s.len() == 11 {
        8
    } else if s.len() == 9 {
        9
    } else if s.len() == 15 {
        10
    } else if s.len() == 6 {
        11
    } else if s.len() == 24 {
        22
    } else {
        23
    }
}

/// The place of a panel with this file among all panels.
spec fn file_place(s: Seq<char>) -> int {
    if s[0] == 'p' {
        if s[6] != '.' {
            5
        } else if s[5] <= '4' {
            s[5] as int - 48
        } else {
            s[5] as int - 47
        }
    } else if s[0] == 'c' {
        if s[13] == '.' {
            s[12] as int - 37
        } else {
            21
        }
    } else if s.len() == 16 {
        8
    } else if s.len() == 14 {
        9
    } else if s.len() == 11 {
        11
    } else if s.len() == 12 {
        22
    } else if s[1] == '4' {
        10
    } else {
        23
    }
}

/// Each of the three tells the place of a panel.
proof fn lemma_places(i: int)
    requires
        0 <= i < 24,
    ensures
        all_panels().len() == 24,
        id_place(all_panels()[i].id) == i,
        name_place(all_panels()[i].name) == i,
        file_place(all_panels()[i].dtbo) == i,
{
    lemma_consoles();
    if i < 12 {
        assert(all_panels()[i] == original_panels()[i]);
        lemma_original_ids(i);
        lemma_original_names(i);
        lemma_original_places(i);
    } else {
        assert(all_panels()[i] == clone_panels()[i - 12]);
        lemma_clone_ids(i - 12);
        lemma_clone_names(i - 12);
        lemma_clone_places(i - 12);
    }
}

proof fn lemma_original_ids(i: int)
    requires
        0 <= i < 12,
    ensures
        id_place(original_panels()[i].id) == i,
{
    reveal_strlit("0");
    reveal_strlit("1");
    reveal_strlit("2");
    reveal_strlit("3");
    reveal_strlit("4");
    reveal_strlit("4v22");
    reveal_strlit("5");
    reveal_strlit("6");
    reveal_strlit("r35s");
    reveal_strlit("r36sp");
    reveal_strlit("r46h");
    reveal_strlit("rgb20s");
    let v = original_panels();
    assert(id_place(v[0].id) == 0);
    assert(id_place(v[1].id) == 1);
    assert(id_place(v[2].id) == 2);
    assert(id_place(v[3].id) == 3);
    assert(id_place(v[4].id) == 4);
    assert(id_place(v[5].id) == 5);
    assert(id_place(v[6].id) == 6);
    assert(id_place(v[7].id) == 7);
    assert(id_place(v[8].id) == 8);
    assert(id_place(v[9].id) == 9);
    assert(id_place(v[10].id) == 10);
    assert(id_place(v[11].id) == 11);
    assert(i == 0 || i == 1 || i == 2 || i == 3 || i == 4 || i == 5 || i == 6 || i == 7 || i == 8 || i
        == 9 || i == 10 || i == 11);
}

proof fn lemma_original_names(i: int)
    requires
        0 <= i < 12,
    ensures
        name_place(original_panels()[i].name) == i,
{
    reveal_strlit("Panel 0");
    reveal_strlit("Panel 1");
    reveal_strlit("Panel 2");
    reveal_strlit("Panel 3");
    reveal_strlit("Panel 4");
    reveal_strlit("Panel 4 V22");
    reveal_strlit("Panel 5");
    reveal_strlit("Panel 6");
    reveal_strlit("R35S Rumble");
    reveal_strlit("R36S Plus");
    reveal_strlit("R46H (1024x768)");
    reveal_strlit("RGB20S");
    let v = original_panels();
    assert(name_place(v[0].name) == 0);
    assert(name_place(v[1].name) == 1);
    assert(name_place(v[2].name) == 2);
    assert(name_place(v[3].name) == 3);
    assert(name_place(v[4].name) == 4);
    assert(name_place(v[5].name) == 5);
    assert(name_place(v[6].name) == 6);
    assert(name_place(v[7].name) == 7);
    assert(name_place(v[8].name) == 8);
    assert(name_place(v[9].name) == 9);
    assert(name_place(v[10].name) == 10);
    assert(name_place(v[11].name) == 11);
    assert(i == 0 || i == 1 || i == 2 || i == 3 || i == 4 || i == 5 || i == 6 || i == 7 || i == 8 || i
        == 9 || i == 10 || i == 11);
}

proof fn lemma_original_places(i: int)
    requires
        0 <= i < 12,
    ensures
        file_place(original_panels()[i].dtbo) == i,
{
    reveal_strlit("panel0.dtbo");
    reveal_strlit("panel1.dtbo");
    reveal_strlit("panel2.dtbo");
    reveal_strlit("panel3.dtbo");
    reveal_strlit("panel4.dtbo");
    reveal_strlit("panel4-v22.dtbo");
    reveal_strlit("panel5.dtbo");
    reveal_strlit("panel6.dtbo");
    reveal_strlit("r35s-rumble.dtbo");
    reveal_strlit("r36s-plus.dtbo");
    reveal_strlit("r46h.dtbo");
    reveal_strlit("rgb20s.dtbo");
    let v = original_panels();
    assert(file_place(v[0].dtbo) == 0);
    assert(file_place(v[1].dtbo) == 1);
    assert(file_place(v[2].dtbo) == 2);
    assert(file_place(v[3].dtbo) == 3);
    assert(file_place(v[4].dtbo) == 4);
    assert(file_place(v[5].dtbo) == 5);
    assert(file_place(v[6].dtbo) == 6);
    assert(file_place(v[7].dtbo) == 7);
    assert(file_place(v[8].dtbo) == 8);
    assert(file_place(v[9].dtbo) == 9);
    assert(file_place(v[10].dtbo) == 10);
    assert(file_place(v[11].dtbo) == 11);
    assert(i == 0 || i == 1 || i == 2 || i == 3 || i == 4 || i == 5 || i == 6 || i == 7 || i == 8 || i
        == 9 || i == 10 || i == 11);
}

proof fn lemma_clone_ids(i: int)
    requires
        0 <= i < 12,
    ensures
        id_place(clone_panels()[i].id) == i + 12,
{
    reveal_strlit("C1");
    reveal_strlit("C2");
    reveal_strlit("C3");
    reveal_strlit("C4");
    reveal_strlit("C5");
    reveal_strlit("C6");
    reveal_strlit("C7");
    reveal_strlit("C8");
    reveal_strlit("C9");
    reveal_strlit("C10");
    reveal_strlit("R36Max");
    reveal_strlit("RX6S");
    let v = clone_panels();
    assert(id_place(v[0].id) == 12);
    assert(id_place(v[1].id) == 13);
    assert(id_place(v[2].id) == 14);
    assert(id_place(v[3].id) == 15);
    assert(id_place(v[4].id) == 16);
    assert(id_place(v[5].id) == 17);
    assert(id_place(v[6].id) == 18);
    assert(id_place(v[7].id) == 19);
    assert(id_place(v[8].id) == 20);
    assert(id_place(v[9].id) == 21);
    assert(id_place(v[10].id) == 22);
    assert(id_place(v[11].id) == 23);
    assert(i == 0 || i == 1 || i == 2 || i == 3 || i == 4 || i == 5 || i == 6 || i == 7 || i == 8 || i
        == 9 || i == 10 || i == 11);
}

proof fn lemma_clone_names(i: int)
    requires
        0 <= i < 12,
    ensures
        name_place(clone_panels()[i].name) == i + 12,
{
    reveal_strlit("Clone 1 (ST7703)");
    reveal_strlit("Clone 2 (ST7703)");
    reveal_strlit("Clone 3 (NV3051D)");
    reveal_strlit("Clone 4 (NV3051D)");
    reveal_strlit("Clone 5 (ST7703)");
    reveal_strlit("Clone 6 (NV3051D)");
    reveal_strlit("Clone 7 (JD9365DA)");
    reveal_strlit("Clone 8 G80CA (ST7703)");
    reveal_strlit("Clone 9 (NV3051D)");
    reveal_strlit("Clone 10 (ST7703)");
    reveal_strlit("R36 Max (ST7703 720x720)");
    reveal_strlit("RX6S (NV3051D)");
    let v = clone_panels();
    assert(name_place(v[0].name) == 12);
    assert(name_place(v[1].name) == 13);
    assert(name_place(v[2].name) == 14);
    assert(name_place(v[3].name) == 15);
    assert(name_place(v[4].name) == 16);
    assert(name_place(v[5].name) == 17);
    assert(name_place(v[6].name) == 18);
    assert(name_place(v[7].name) == 19);
    assert(name_place(v[8].name) == 20);
    assert(name_place(v[9].name) == 21);
    assert(name_place(v[10].name) == 22);
    assert(name_place(v[11].name) == 23);
    assert(i == 0 || i == 1 || i == 2 || i == 3 || i == 4 || i == 5 || i == 6 || i == 7 || i == 8 || i
        == 9 || i == 10 || i == 11);
}

proof fn lemma_clone_places(i: int)
    requires
        0 <= i < 12,
    ensures
        file_place(clone_panels()[i].dtbo) == i + 12,
{
    reveal_strlit("clone_panel_1.dtbo");
    reveal_strlit("clone_panel_2.dtbo");
    reveal_strlit("clone_panel_3.dtbo");
    reveal_strlit("clone_panel_4.dtbo");
    reveal_strlit("clone_panel_5.dtbo");
    reveal_strlit("clone_panel_6.dtbo");
    reveal_strlit("clone_panel_7.dtbo");
    reveal_strlit("clone_panel_8.dtbo");
    reveal_strlit("clone_panel_9.dtbo");
    reveal_strlit("clone_panel_10.dtbo");
    reveal_strlit("r36_max.dtbo");
    reveal_strlit("rx6s.dtbo");
    let v = clone_panels();
    assert(file_place(v[0].dtbo) == 12);
    assert(file_place(v[1].dtbo) == 13);
    assert(file_place(v[2].dtbo) == 14);
    assert(file_place(v[3].dtbo) == 15);
    assert(file_place(v[4].dtbo) == 16);
    assert(file_place(v[5].dtbo) == 17);
    assert(file_place(v[6].dtbo) == 18);
    assert(file_place(v[7].dtbo) == 19);
    assert(file_place(v[8].dtbo) == 20);
    assert(file_place(v[9].dtbo) == 21);
    assert(file_place(v[10].dtbo) == 22);
    assert(file_place(v[11].dtbo) == 23);
    assert(i == 0 || i == 1 || i == 2 || i == 3 || i == 4 || i == 5 || i == 6 || i == 7 || i == 8 || i
        == 9 || i == 10 || i == 11);
}

/// A short text ends in ".dtbo" and holds no slash.
proof fn lemma_overlay_file(f: Seq<char>)
    requires
        5 <= f.len() <= 19,
        f[f.len() - 5] == '.',
        f[f.len() - 4] == 'd',
        f[f.len() - 3] == 't',
        f[f.len() - 2] == 'b',
        f[f.len() - 1] == 'o',
        f.len() > 5 ==> f[0] != '/',
        f.len() > 6 ==> f[1] != '/',
        f.len() > 7 ==> f[2] != '/',
        f.len() > 8 ==> f[3] != '/',
        f.len() > 9 ==> f[4] != '/',
        f.len() > 10 ==> f[5] != '/',
        f.len() > 11 ==> f[6] != '/',
        f.len() > 12 ==> f[7] != '/',
        f.len() > 13 ==> f[8] != '/',
        f.len() > 14 ==> f[9] != '/',
        f.len() > 15 ==> f[10] != '/',
        f.len() > 16 ==> f[11] != '/',
        f.len() > 17 ==> f[12] != '/',
        f.len() > 18 ==> f[13] != '/',
    ensures
        is_overlay_file(f),
{
    reveal_strlit(".dtbo");
    assert(f.subrange(f.len() - 5, f.len() as int) =~= ".dtbo"@);
    if f.contains('/') {
        let k = choose|k: int| 0 <= k < f.len() && f[k] == '/';
        assert(k < f.len() - 5);
        assert(k == 0 || k == 1 || k == 2 || k == 3 || k == 4 || k == 5 || k == 6 || k == 7 || k == 8
            || k == 9 || k == 10 || k == 11 || k == 12 || k == 13);
    }
}

proof fn lemma_original_files()
    ensures
        forall|i: int|
            0 <= i < original_panels().len() ==> is_overlay_file((#[trigger] original_panels()[i]).dtbo),
{
    let v = original_panels();
    reveal_strlit("panel0.dtbo");
    lemma_overlay_file("panel0.dtbo"@);
    reveal_strlit("panel1.dtbo");
    lemma_overlay_file("panel1.dtbo"@);
    reveal_strlit("panel2.dtbo");
    lemma_overlay_file("panel2.dtbo"@);
    reveal_strlit("panel3.dtbo");
    lemma_overlay_file("panel3.dtbo"@);
    reveal_strlit("panel4.dtbo");
    lemma_overlay_file("panel4.dtbo"@);
    reveal_strlit("panel4-v22.dtbo");
    lemma_overlay_file("panel4-v22.dtbo"@);
    reveal_strlit("panel5.dtbo");
    lemma_overlay_file("panel5.dtbo"@);
    reveal_strlit("panel6.dtbo");
    lemma_overlay_file("panel6.dtbo"@);
    reveal_strlit("r35s-rumble.dtbo");
    lemma_overlay_file("r35s-rumble.dtbo"@);
    reveal_strlit("r36s-plus.dtbo");
    lemma_overlay_file("r36s-plus.dtbo"@);
    reveal_strlit("r46h.dtbo");
    lemma_overlay_file("r46h.dtbo"@);
    reveal_strlit("rgb20s.dtbo");
    lemma_overlay_file("rgb20s.dtbo"@);
    assert forall|i: int| 0 <= i < v.len() implies is_overlay_file((#[trigger] v[i]).dtbo) by {
        assert(i == 0 || i == 1 || i == 2 || i == 3 || i == 4 || i == 5 || i == 6 || i == 7 || i == 8 || i
            == 9 || i == 10 || i == 11);
    }
}

proof fn lemma_clone_files()
    ensures
        forall|i: int|
            0 <= i < clone_panels().len() ==> is_overlay_file((#[trigger] clone_panels()[i]).dtbo),
{
    let v = clone_panels();
    reveal_strlit("clone_panel_1.dtbo");
    lemma_overlay_file("clone_panel_1.dtbo"@);
    reveal_strlit("clone_panel_2.dtbo");
    lemma_overlay_file("clone_panel_2.dtbo"@);
    reveal_strlit("clone_panel_3.dtbo");
    lemma_overlay_file("clone_panel_3.dtbo"@);
    reveal_strlit("clone_panel_4.dtbo");
    lemma_overlay_file("clone_panel_4.dtbo"@);
    reveal_strlit("clone_panel_5.dtbo");
    lemma_overlay_file("clone_panel_5.dtbo"@);
    reveal_strlit("clone_panel_6.dtbo");
    lemma_overlay_file("clone_panel_6.dtbo"@);
    reveal_strlit("clone_panel_7.dtbo");
    lemma_overlay_file("clone_panel_7.dtbo"@);
    reveal_strlit("clone_panel_8.dtbo");
    lemma_overlay_file("clone_panel_8.dtbo"@);
    reveal_strlit("clone_panel_9.dtbo");
    lemma_overlay_file("clone_panel_9.dtbo"@);
    reveal_strlit("clone_panel_10.dtbo");
    lemma_overlay_file("clone_panel_10.dtbo"@);
    reveal_strlit("r36_max.dtbo");
    lemma_overlay_file("r36_max.dtbo"@);
    reveal_strlit("rx6s.dtbo");
    lemma_overlay_file("rx6s.dtbo"@);
    assert forall|i: int| 0 <= i < v.len() implies is_overlay_file((#[trigger] v[i]).dtbo) by {
        assert(i == 0 || i == 1 || i == 2 || i == 3 || i == 4 || i == 5 || i == 6 || i == 7 || i == 8 || i
            == 9 || i == 10 || i == 11);
    }
}

} // verus!
