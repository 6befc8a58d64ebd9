//! The menu in the system tray, and the icon that is drawn where there is no
//! icon file.
use vstd::prelude::*;
use vstd::string::*;

use crate::config;
use crate::config::{Settings, SettingsView};
use crate::text;

verus! {

// ---------------------------------------------------------------------------
// The menu
// ---------------------------------------------------------------------------

pub const AUTO_ID: &'static str = "__auto__";

pub const QUIT_ID: &'static str = "__quit__";

/// A line of the menu.
pub enum MenuEntry {
    Item { id: String, label: String },
    Separator,
}

/// The mathematical counterpart of `MenuEntry`.
pub ghost enum EntryView {
    Item { id: Seq<char>, label: Seq<char> },
    Separator,
}

impl View for MenuEntry {
    type V = EntryView;

    open spec fn view(&self) -> EntryView {
        match *self {
            MenuEntry::Item { id, label } => EntryView::Item { id: id@, label: label@ },
            MenuEntry::Separator => EntryView::Separator,
        }
    }
}

pub open spec fn menu_views(v: Seq<MenuEntry>) -> Seq<EntryView> {
    v.map_values(|e: MenuEntry| e@)
}

/// The line that switches the automatic choice.
pub open spec fn auto_entry(s: SettingsView) -> EntryView {
    EntryView::Item {
        id: AUTO_ID@,
        label: if s.auto_select {
            "✓ 自动选择 (当前: "@ + s.active + ")"@
        } else {
            "  自动选择"@
        },
    }
}

/// The line of a model: ticked where it is in use and was chosen by hand.
pub open spec fn model_entry(s: SettingsView, name: Seq<char>) -> EntryView {
    EntryView::Item {
        id: name,
        label: if !s.auto_select && name == s.active {
            "✓ "@ + name
        } else {
            "  "@ + name
        },
    }
}

pub open spec fn model_entries(s: SettingsView) -> Seq<EntryView> {
    config::names(s.models).map_values(|name: Seq<char>| model_entry(s, name))
}

/// The menu: the automatic choice, the models, the end of the program.
pub open spec fn menu(s: SettingsView) -> Seq<EntryView> {
    seq![auto_entry(s), EntryView::Separator] + model_entries(s) + seq![
        EntryView::Separator,
        EntryView::Item { id: QUIT_ID@, label: "退出 holoProxy"@ },
    ]
}

fn item(id: &str, label: String) -> (r: MenuEntry)
    ensures
        r@ == (EntryView::Item { id: id@, label: label@ }),
{
    MenuEntry::Item { id: id.to_owned(), label }
}

fn push_entry(v: &mut Vec<MenuEntry>, e: MenuEntry)
    ensures
        menu_views(final(v)@) == menu_views(old(v)@).push(e@),
{
    v.push(e);
    assert(menu_views(v@) =~= menu_views(old(v)@).push(e@));
}

/// The menu.
pub fn build_menu(settings: &Settings) -> (r: Vec<MenuEntry>)
    ensures
        menu_views(r@) == menu(settings@),
{
    let auto = config::is_auto_select(settings);
    let active = config::get_active_llm_name(settings);
    let names = config::get_llm_names(settings);
    let mut r: Vec<MenuEntry> = Vec::new();
    assert(menu_views(r@) =~= Seq::<EntryView>::empty());
    let label = if auto {
        let mut l = text::cat("✓ 自动选择 (当前: ", active.as_str());
        l.append(")");
        l
    } else {
        "  自动选择".to_owned()
    };
    push_entry(&mut r, item(AUTO_ID, label));
    push_entry(&mut r, MenuEntry::Separator);
    let ghost first = seq![auto_entry(settings@), EntryView::Separator];
    let ghost all = model_entries(settings@);
    assert(menu_views(r@) =~= first + all.take(0));
    let mut i: usize = 0;
    while i < names.len()
        invariant
            text::views(names@) == config::names(settings@.models),
            active@ == settings@.active,
            auto == settings@.auto_select,
            all == model_entries(settings@),
            i <= names@.len(),
            menu_views(r@) == first + all.take(i as int),
        decreases names.len() - i,
    {
        let name = names[i].as_str();
        assert(name@ == text::views(names@)[i as int]);
        let label = if !auto && text::same(name, active.as_str()) {
            text::cat("✓ ", name)
        } else {
            text::cat("  ", name)
        };
        push_entry(&mut r, item(name, label));
        assert(all[i as int] == model_entry(settings@, name@));
        assert(menu_views(r@) =~= first + all.take(i + 1));
        i = i + 1;
    }
    assert(text::views(names@).len() == names@.len());
    assert(all.take(all.len() as int) =~= all);
    push_entry(&mut r, MenuEntry::Separator);
    push_entry(&mut r, item(QUIT_ID, "退出 holoProxy".to_owned()));
    assert(menu_views(r@) =~= menu(settings@));
    r
}

/// What is shown beside the icon.
pub open spec fn tooltip_text(s: SettingsView) -> Seq<char> {
    "holoProxy - "@ + s.active
}

/// What is shown beside the icon.
pub fn tooltip(settings: &Settings) -> (r: String)
    ensures
        r@ == tooltip_text(settings@),
{
    text::cat("holoProxy - ", config::get_active_llm_name(settings).as_str())
}

/// What a click on the menu leads to.
#[derive(Clone, Copy, PartialEq, Eq, Structural, Debug)]
pub enum MenuAction {
    /// The program ends.
    Quit,
    /// The configuration has changed: it is saved and the menu built anew.
    Refresh,
    /// Nothing.
    Ignore,
}

/// What a click on the line `id` leads to.
pub open spec fn action(s: SettingsView, id: Seq<char>) -> MenuAction {
    if id == QUIT_ID@ {
        MenuAction::Quit
    } else if id == AUTO_ID@ || config::entry(s.models, id) is Some {
        MenuAction::Refresh
    } else {
        MenuAction::Ignore
    }
}

/// The configuration after a click on the line `id`.
pub open spec fn clicked(s: SettingsView, id: Seq<char>) -> SettingsView {
    if id == QUIT_ID@ {
        s
    } else if id == AUTO_ID@ {
        SettingsView { auto_select: !s.auto_select, ..s }
    } else if config::entry(s.models, id) is Some {
        config::switched(s, id)
    } else {
        s
    }
}

/// Takes in a click on the line `id` of the menu.
pub fn handle_menu_id(settings: &mut Settings, id: &str) -> (r: MenuAction)
    ensures
        r == action(old(settings)@, id@),
        final(settings)@ == clicked(old(settings)@, id@),
{
    if text::same(id, QUIT_ID) {
        return MenuAction::Quit;
    }
    if text::same(id, AUTO_ID) {
        let on = !config::is_auto_select(settings);
        config::switch_auto_select(settings, on);
        return MenuAction::Refresh;
    }
    match config::switch_active_llm(settings, id) {
        Ok(_) => MenuAction::Refresh,
        Err(_) => MenuAction::Ignore,
    }
}

/// A second click on the automatic choice takes back the first.
pub proof fn law_auto_twice(s: SettingsView)
    ensures
        clicked(clicked(s, AUTO_ID@), AUTO_ID@) == s,
        action(s, AUTO_ID@) == MenuAction::Refresh,
{
    reveal_strlit("__auto__");
    reveal_strlit("__quit__");
    assert("__auto__"@[2] != "__quit__"@[2]);
}

/// A click on the line of a model puts that model in use, and in the new menu
/// its line is the one that is ticked, unless the choice is automatic.
pub proof fn law_click_ticks(s: SettingsView, i: int)
    requires
        0 <= i < s.models.len(),
        s.models[i].0 != AUTO_ID@,
        s.models[i].0 != QUIT_ID@,
        !s.auto_select,
    ensures
        ({
            let name = s.models[i].0;
            let r = clicked(s, name);
            &&& r.active == name
            &&& model_entries(r)[i] == (EntryView::Item { id: name, label: "✓ "@ + name })
            &&& forall|j: int|
                0 <= j < s.models.len() && s.models[j].0 != name ==> (
                #[trigger] model_entries(r)[j]) == (EntryView::Item {
                    id: s.models[j].0,
                    label: "  "@ + s.models[j].0,
                })
        }),
{
    let name = s.models[i].0;
    lemma_entry_found(s.models, i, 0);
    let r = clicked(s, name);
    assert(config::names(r.models)[i] == name);
    assert forall|j: int| 0 <= j < s.models.len() && s.models[j].0 != name implies (
    #[trigger] model_entries(r)[j]) == (EntryView::Item {
        id: s.models[j].0,
        label: "  "@ + s.models[j].0,
    }) by {
        assert(config::names(r.models)[j] == s.models[j].0);
    }
}

proof fn lemma_entry_found(
    v: Seq<(Seq<char>, crate::types::LLMConfig)>,
    i: int,
    from: int,
)
    requires
        0 <= from <= i < v.len(),
    ensures
        config::entry_index(v, v[i].0, from) is Some,
    decreases i - from,
{
    if v[from].0 != v[i].0 {
        lemma_entry_found(v, i, from + 1);
    }
}

// ---------------------------------------------------------------------------
// The icon
// ---------------------------------------------------------------------------

/// The width and the height of the icon, in pixels.
pub const ICON_SIZE: u32 = 32;

/// A row of the letter on the icon, one bit for each pixel.
pub open spec fn letter_row(y: int) -> u8 {
    if 0 <= y < 6 {
        0b01100000u8
    } else if y == 6 || y == 15 {
        0b01111110u8
    } else {
        0b01100110u8
    }
}

/// Whether the letter covers a pixel: it is 7 by 16 pixels large, in the
/// middle.
pub open spec fn in_letter(x: int, y: int) -> bool {
    12 <= x < 19 && 8 <= y < 24 && (letter_row(y - 8) >> ((7 - (x - 12)) as u8)) & 1 == 1
}

/// Whether the disc covers a pixel.
pub open spec fn in_disc(x: int, y: int) -> bool {
    (x - 16) * (x - 16) + (y - 16) * (y - 16) <= 14 * 14
}

/// A channel of a pixel: red, green, blue, alpha. A white letter on a blue
/// disc; nothing around it.
pub open spec fn channel(x: int, y: int, c: int) -> u8 {
    if c < 3 && in_letter(x, y) {
        255
    } else if in_disc(x, y) {
        if c == 0 {
            37
        } else if c == 1 {
            99
        } else if c == 2 {
            235
        } else {
            255
        }
    } else {
        0
    }
}

/// The byte at a position of the icon: row after row, pixel after pixel, four
/// channels each.
pub open spec fn icon_byte(i: int) -> u8 {
    channel((i / 4) % 32, (i / 4) / 32, i % 4)
}

fn row_of(y: u32) -> (r: u8)
    ensures
        r == letter_row(y as int),
{
    if y < 6 {
        0b01100000u8
    } else if y == 6 || y == 15 {
        0b01111110u8
    } else {
        0b01100110u8
    }
}

fn letter_covers(x: u32, y: u32) -> (r: bool)
    ensures
        r == in_letter(x as int, y as int),
{
    if 12 <= x && x < 19 && 8 <= y && y < 24 {
        let shift: u8 = (7 - (x - 12)) as u8;
        (row_of(y - 8) >> shift) & 1 == 1
    } else {
        false
    }
}

fn disc_covers(x: u32, y: u32) -> (r: bool)
    requires
        x < 32,
        y < 32,
    ensures
        r == in_disc(x as int, y as int),
{
    let dx: i32 = x as i32 - 16;
    let dy: i32 = y as i32 - 16;
    assert(dx * dx <= 256) by (nonlinear_arith)
        requires
            -16 <= dx <= 15,
    ;
    assert(dy * dy <= 256) by (nonlinear_arith)
        requires
            -16 <= dy <= 15,
    ;
    assert(0 <= dx * dx) by (nonlinear_arith);
    assert(0 <= dy * dy) by (nonlinear_arith);
    dx * dx + dy * dy <= 14 * 14
}

/// The icon that is drawn where there is no icon file, in RGBA.
pub fn fallback_icon() -> (r: Vec<u8>)
    ensures
        r@.len() == ICON_SIZE * ICON_SIZE * 4,
        forall|i: int| 0 <= i < r@.len() ==> #[trigger] r@[i] == icon_byte(i),
{
    let mut r: Vec<u8> = Vec::new();
    let mut p: u32 = 0;
    while p < 1024
        invariant
            p <= 1024,
            r@.len() == p * 4,
            forall|i: int| 0 <= i < r@.len() ==> #[trigger] r@[i] == icon_byte(i),
        decreases 1024 - p,
    {
        let x: u32 = p % 32;
        let y: u32 = p / 32;
        let letter = letter_covers(x, y);
        let disc = disc_covers(x, y);
        let red: u8 = if letter {
            255
        } else if disc {
            37
        } else {
            0
        };
        let green: u8 = if letter {
            255
        } else if disc {
            99
        } else {
            0
        };
        let blue: u8 = if letter {
            255
        } else if disc {
            235
        } else {
            0
        };
        let alpha: u8 = if disc {
            255
        } else {
            0
        };
        r.push(red);
        r.push(green);
        r.push(blue);
        r.push(alpha);
        p = p + 1;
    }
    r
}

/// The icon: where the disc is, it is opaque, and around it clear; a pixel of
/// the letter is white, and any other of the disc blue.
pub proof fn law_icon(x: int, y: int)
    requires
        0 <= x < 32,
        0 <= y < 32,
    ensures
        ({
            let i = (y * 32 + x) * 4;
            let near = (x - 16) * (x - 16) + (y - 16) * (y - 16) <= 196;
            &&& icon_byte(i + 3) == if near {
                255u8
            } else {
                0u8
            }
            &&& in_letter(x, y) ==> icon_byte(i) == 255 && icon_byte(i + 1) == 255 && icon_byte(
                i + 2,
            ) == 255
            &&& !in_letter(x, y) && near ==> icon_byte(i) == 37 && icon_byte(i + 1) == 99
                && icon_byte(i + 2) == 235
            &&& !in_letter(x, y) && !near ==> icon_byte(i) == 0 && icon_byte(i + 1) == 0
                && icon_byte(i + 2) == 0
        }),
{
    let i = (y * 32 + x) * 4;
    assert((i / 4) % 32 == x && (i / 4) / 32 == y);
    assert(((i + 1) / 4) % 32 == x && ((i + 1) / 4) / 32 == y);
    assert(((i + 2) / 4) % 32 == x && ((i + 2) / 4) / 32 == y);
    assert(((i + 3) / 4) % 32 == x && ((i + 3) / 4) / 32 == y);
}

/// The menu has a line for each model, in their order, between the one for the
/// automatic choice and the one that ends the program; each line is told by the
/// name of its model.
pub proof fn law_menu(s: SettingsView)
    ensures
        menu(s).len() == s.models.len() + 4,
        menu(s)[0] matches EntryView::Item { id, .. } && id == "__auto__"@,
        menu(s)[1] is Separator,
        forall|i: int|
            0 <= i < s.models.len() ==> (#[trigger] menu(s)[i + 2] matches EntryView::Item {
                id,
                label,
            } && id == s.models[i].0 && label == (if !s.auto_select && s.models[i].0 == s.active {
                "✓ "@
            } else {
                "  "@
            }) + s.models[i].0),
        menu(s)[(s.models.len() + 2) as int] is Separator,
        menu(s).last() matches EntryView::Item { id, .. } && id == "__quit__"@,
{
    assert forall|i: int| 0 <= i < s.models.len() implies (#[trigger] menu(s)[i + 2] matches
        EntryView::Item { id, label } && id == s.models[i].0 && label == (if !s.auto_select
        && s.models[i].0 == s.active {
        "✓ "@
    } else {
        "  "@
    }) + s.models[i].0) by {
        assert(config::names(s.models)[i] == s.models[i].0);
        assert(menu(s)[i + 2] == model_entries(s)[i]);
    }
}

/// With the automatic choice its line is ticked and says which model is in use;
/// without it, it is not.
pub proof fn law_auto_shown(s: SettingsView)
    ensures
        s.auto_select ==> menu(s)[0] == (EntryView::Item {
            id: "__auto__"@,
            label: "✓ 自动选择 (当前: "@ + s.active + ")"@,
        }),
        !s.auto_select ==> menu(s)[0] == (EntryView::Item {
            id: "__auto__"@,
            label: "  自动选择"@,
        }),
{
}

/// A click on a line that is neither a model's nor one of the others changes
/// nothing and is ignored; the line that ends the program changes nothing
/// either.
pub proof fn law_other_clicks(s: SettingsView, id: Seq<char>)
    requires
        id != "__auto__"@,
        id != "__quit__"@,
        forall|i: int| 0 <= i < s.models.len() ==> (#[trigger] s.models[i]).0 != id,
    ensures
        clicked(s, id) == s,
        action(s, id) == MenuAction::Ignore,
        clicked(s, "__quit__"@) == s,
        action(s, "__quit__"@) == MenuAction::Quit,
{
    config::law_entry(s.models, id);
}

} // verus!
