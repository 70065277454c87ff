use supermd::commands::{
    about_command, commands, glyphs, help_sections, items_for, menu_title, menus, popover_groups,
    shortcut_markdown, Command, MenuEntry, MenuId,
};

/// Off macOS, About stays in the Help menu.
const ABOUT_IN_APP_MENU: bool = false;


#[test]
fn table_entries_carry_their_keys_and_display_form() {
    let table = commands();
    let sidebar = table
        .iter()
        .find(|c| c.id == "toggle_sidebar")
        .expect("toggle_sidebar is in the table");
    assert_eq!(sidebar.label, "Toggle Sidebar");
    // ⌘1 is canonical; ⌘B is the retained convention alias.
    assert_eq!(sidebar.keys, &["cmd-1", "cmd-b"]);
    assert_eq!(glyphs(sidebar.keys[0]), "⌘ 1");
    assert!(sidebar.context.is_none(), "panel toggles bind globally");
}

#[test]
fn every_command_has_a_unique_id() {
    let mut ids: Vec<&str> = commands().iter().map(|c| c.id).collect();
    ids.sort_unstable();
    let before = ids.len();
    ids.dedup();
    assert_eq!(before, ids.len(), "duplicate command id in the table");
}


#[test]
fn no_two_commands_claim_one_key_in_the_same_context() {
    let mut seen: Vec<(&str, Option<&str>)> = Vec::new();
    let table = commands();
    for cmd in &table {
        for key in cmd.keys {
            let slot = (*key, cmd.context);
            assert!(
                !seen.contains(&slot),
                "{} collides on {key:?} in context {:?}",
                cmd.id,
                cmd.context
            );
            seen.push(slot);
        }
    }
}

/// Tab cycling has two chords each. They were nearly lost when the
/// table took over: a filter keyed on the action name alone dropped
/// ⌃Tab because ⌘⇧] already claimed NextTab.
#[test]
fn tab_cycling_keeps_both_of_its_chords() {
    let keys = |id: &str| {
        commands().iter().find(|c| c.id == id).expect("in table").keys
    };
    assert_eq!(keys("next_tab"), &["cmd-shift-]", "ctrl-tab"]);
    assert_eq!(keys("prev_tab"), &["cmd-shift-[", "ctrl-shift-tab"]);
}

#[test]
fn cmd_b_is_shared_across_contexts_on_purpose() {
    // ToggleSidebar (global) and ToggleBold (Editor) both bind ⌘B; the
    // editor handler propagates a cursor-only press so the sidebar
    // still toggles. Cross-context sharing must stay legal, so this
    // records the exception the collision test above permits.
    let holders: Vec<&str> = commands()
        .iter()
        .filter(|c| c.keys.contains(&"cmd-b"))
        .map(|c| c.id)
        .collect();
    assert_eq!(holders, vec!["toggle_sidebar", "bold"]);
}

#[test]
fn items_for_a_menu_come_back_in_group_order() {
    let view = items_for(&commands(), MenuId::View, ABOUT_IN_APP_MENU);
    assert!(!view.is_empty(), "the View menu has entries");
    let groups: Vec<u8> = view.iter().map(|c| c.menu.unwrap().1).collect();
    let mut sorted = groups.clone();
    sorted.sort_unstable();
    assert_eq!(groups, sorted, "entries are grouped in order");
}

#[test]
fn menu_titles_cover_every_variant() {
    for id in [
        MenuId::File, MenuId::Edit, MenuId::Format,
        MenuId::View, MenuId::Go, MenuId::Tools, MenuId::Help,
    ] {
        assert!(!menu_title(id).is_empty(), "{id:?} has a title");
    }
}


#[test]
fn help_sections_carry_glyphs_and_labels() {
    let sections = help_sections(&commands());
    let general = sections
        .iter()
        .find(|(title, _)| *title == "General")
        .expect("General section exists");
    assert!(
        general.1.iter().any(|(keys, label)| keys == "⌘ P" && *label == "Go to File…"),
        "⌘P is listed under General"
    );
}

#[test]
fn help_lists_only_the_canonical_key_not_aliases() {
    let sections = help_sections(&commands());
    let general: Vec<String> = sections
        .iter()
        .find(|(t, _)| *t == "General")
        .expect("General section")
        .1
        .iter()
        .map(|(k, _)| k.clone())
        .collect();
    assert!(general.iter().any(|k| k == "⌘ 1"), "canonical panel key shown");
    // ⌘B is the sidebar's alias, so it must not appear a second time
    // under General. It still appears under Editor, for Bold — a
    // different command that legitimately owns the same chord.
    assert!(
        !general.iter().any(|k| k == "⌘ B"),
        "the ⌘B sidebar alias is not listed alongside ⌘1"
    );
    let editor: Vec<String> = sections
        .iter()
        .find(|(t, _)| *t == "Editor")
        .expect("Editor section")
        .1
        .iter()
        .map(|(k, _)| k.clone())
        .collect();
    assert!(editor.iter().any(|k| k == "⌘ B"), "Bold keeps ⌘B in Editor");
}


#[test]
fn shortcut_markdown_documents_the_modifier_scheme() {
    let md = shortcut_markdown(&commands());
    assert!(md.contains("## The scheme"), "the scheme is documented");
    // Each tier is named, so a future binding has a principled home.
    for tier in ["the file and the text", "the workspace", "modes", "panels"] {
        assert!(md.contains(tier), "scheme is missing the {tier:?} tier");
    }
}

#[test]
fn shortcut_markdown_renders_a_table_per_section() {
    let md = shortcut_markdown(&commands());
    assert!(md.starts_with("# Keyboard shortcuts"), "has a title");
    assert!(md.contains("## General"), "has the General section");
    assert!(
        md.contains("| ⌘ P | Ctrl P | Go to File… |"),
        "a row renders both platform columns"
    );
}


/// A command with no menu entry, no ⌘/ row and no keystroke exists
/// but no user can find it. This is the property the old
/// `assert_eq!(bindings.len(), N)` counter could never express — it
/// stayed green while 44 bindings moved and three panels rebound.
#[test]
fn every_command_is_reachable_from_some_surface() {
    let unreachable: Vec<&str> = commands()
        .iter()
        .filter(|c| c.menu.is_none() && c.help.is_none() && c.keys.is_empty())
        .map(|c| c.id)
        .collect();
    assert!(unreachable.is_empty(), "unreachable commands: {unreachable:?}");
}

#[test]
fn the_edit_menu_exists_and_carries_the_clipboard_verbs() {
    let edit: Vec<&str> = items_for(&commands(), MenuId::Edit, ABOUT_IN_APP_MENU).iter().map(|c| c.label).collect();
    for expected in ["Undo", "Redo", "Cut", "Copy", "Paste", "Select All"] {
        assert!(edit.contains(&expected), "Edit menu is missing {expected}");
    }
}

#[test]
fn the_format_menu_carries_every_marker_toggle() {
    let fmt: Vec<&str> = items_for(&commands(), MenuId::Format, ABOUT_IN_APP_MENU).iter().map(|c| c.label).collect();
    for expected in
        ["Bold", "Italic", "Code", "Strikethrough", "Link", "Heading", "Quote"]
    {
        assert!(fmt.contains(&expected), "Format menu is missing {expected}");
    }
}

#[test]
fn about_lands_in_the_app_menu_on_macos_and_help_elsewhere() {
    let help: Vec<&str> = items_for(&commands(), MenuId::Help, ABOUT_IN_APP_MENU).iter().map(|c| c.id).collect();
    if ABOUT_IN_APP_MENU {
        assert!(!help.contains(&"about"), "macOS hangs About off the app menu");
    } else {
        assert!(help.contains(&"about"), "elsewhere About lives in Help");
    }
    // Either way it exists and is reachable.
    assert_eq!(about_command(&commands()).label, "About SuperMD");
}

#[test]
fn graph_view_reaches_a_menu_and_a_shortcut() {
    let table = commands();
    let graph = table.iter().find(|c| c.id == "graph").expect("graph in table");
    assert_eq!(graph.keys, &["cmd-shift-g"]);
    assert_eq!(graph.menu.map(|(m, _)| m), Some(MenuId::Go));
}

#[test]
fn glyphs_render_macos_modifier_symbols() {
    assert_eq!(glyphs("cmd-n"), "⌘ N");
    assert_eq!(glyphs("cmd-shift-d"), "⌘ ⇧ D");
    assert_eq!(glyphs("ctrl-cmd-f"), "⌃ ⌘ F");
    assert_eq!(glyphs("alt-left"), "⌥ ←");
}

/// `cmd--` is Zoom Out: the key itself is a hyphen, so naive
/// splitting on '-' yields empty segments and loses the key.
#[test]
fn glyphs_survive_a_hyphen_as_the_key() {
    assert_eq!(glyphs("cmd--"), "⌘ −");
    assert_eq!(glyphs("cmd-="), "⌘ =");
}

#[test]
fn glyphs_name_the_non_letter_keys() {
    assert_eq!(glyphs("enter"), "⏎");
    assert_eq!(glyphs("cmd-backspace"), "⌘ ⌫");
    assert_eq!(glyphs("pageup"), "PgUp");
    assert_eq!(glyphs("f2"), "F2");
}

#[test]
fn popover_groups_follow_the_menu_bar_order() {
    let table = commands();
    let groups = popover_groups(&table, ABOUT_IN_APP_MENU);
    let titles: Vec<&str> = groups.iter().map(|(t, _)| *t).collect();
    assert_eq!(titles, vec!["File", "Edit", "Format", "View", "Go", "Tools", "Help"]);
    let go: Vec<&str> = groups[4].1.iter().map(|c: &Command| c.id).collect();
    assert_eq!(go, vec!["go_to_file", "search_workspace", "focus_sidebar", "next_tab", "prev_tab", "follow_link", "graph"]);
}

#[test]
fn about_moves_out_of_help_when_the_app_menu_takes_it() {
    let table = commands();
    let help: Vec<&str> = items_for(&table, MenuId::Help, true).iter().map(|c| c.id).collect();
    assert!(!help.contains(&"about"));
    assert!(help.contains(&"settings_folder"));
}

#[test]
fn glyphs_capitalize_only_the_first_letter_of_named_keys() {
    assert_eq!(glyphs("f12"), "F12");
    assert_eq!(glyphs("shift-space"), "\u{21e7} Space");
    assert_eq!(glyphs(""), "");
    assert_eq!(glyphs("ctrl-shift-tab"), "\u{2303} \u{21e7} Tab");
}

#[test]
fn docs_rows_translate_the_command_glyph_only() {
    let md = shortcut_markdown(&commands());
    assert!(md.contains("| \u{2318} \u{21e7} F | Ctrl \u{21e7} F | Search in Workspace\u{2026} |"));
    assert!(md.contains("## Preview & read-only tabs"));
}

#[test]
fn separators_fall_between_groups_never_at_the_edges() {
    let table = commands();
    let built = menus(&table, &[], ABOUT_IN_APP_MENU);
    let view = built.iter().find(|m| m.title == "View").expect("View menu is built");
    assert!(!matches!(view.items.first(), Some(MenuEntry::Separator)), "no leading separator");
    assert!(!matches!(view.items.last(), Some(MenuEntry::Separator)), "no trailing separator");
    let seps = view.items.iter().filter(|i| matches!(i, MenuEntry::Separator)).count();
    assert_eq!(seps, 4, "View has five groups, so four separators");
}

#[test]
fn the_popover_shows_exactly_what_the_menu_bar_shows() {
    let table = commands();
    let built = menus(&table, &[], ABOUT_IN_APP_MENU);
    let bar: Vec<&str> = built
        .iter()
        .flat_map(|m| {
            m.items.iter().filter_map(|i| match i {
                MenuEntry::Action(c) => Some(c.label),
                _ => None,
            })
        })
        .collect();
    let popover: Vec<&str> = popover_groups(&table, ABOUT_IN_APP_MENU)
        .iter()
        .flat_map(|(_, cmds)| cmds.iter().map(|c| c.label))
        .collect();
    assert_eq!(bar, popover, "popover and menu bar list the same commands");
}

#[test]
fn open_recent_follows_open_with_at_most_eight_files() {
    let table = commands();
    let recents: Vec<String> = (0..10).map(|i| format!("note-{i}.md")).collect();
    let built = menus(&table, &recents, ABOUT_IN_APP_MENU);
    let file = built.iter().find(|m| m.title == "File").expect("File menu is built");
    let open_at = file
        .items
        .iter()
        .position(|i| matches!(i, MenuEntry::Action(c) if c.id == "open"))
        .expect("File lists Open");
    match &file.items[open_at + 1] {
        MenuEntry::OpenRecent(names) => {
            assert_eq!(names.len(), 8);
            assert_eq!(names[0], "note-0.md");
            assert_eq!(names[7], "note-7.md");
        }
        other => panic!("expected Open Recent after Open, got {other:?}"),
    }
    let none = menus(&table, &[], ABOUT_IN_APP_MENU);
    let file = none.iter().find(|m| m.title == "File").expect("File menu is built");
    assert!(!file.items.iter().any(|i| matches!(i, MenuEntry::OpenRecent(_))));
}

#[test]
fn the_menu_bar_runs_in_menu_order() {
    let table = commands();
    let titles: Vec<&str> = menus(&table, &[], ABOUT_IN_APP_MENU).iter().map(|m| m.title).collect();
    assert_eq!(titles, ["File", "Edit", "Format", "View", "Go", "Tools", "Help"]);
    let mac: Vec<&str> = menus(&table, &[], true)
        .iter()
        .flat_map(|m| m.items.iter())
        .filter_map(|i| match i {
            MenuEntry::Action(c) => Some(c.id),
            _ => None,
        })
        .collect();
    assert!(!mac.contains(&"about"), "About moves to the app menu on macOS");
}
