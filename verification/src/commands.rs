//! The command table: one declaration per user-facing command, and the
//! pure derivations that project it onto every surface (menus, the ☰
//! popover, the ⌘/ dialog, and the shortcut docs).
//!
//! Declaring a command once and deriving every surface keeps the
//! surfaces from drifting apart. The GPUI actions a command dispatches
//! belong to the shell; here a command is the data the surfaces read.
use vstd::prelude::*;
use crate::text::{chars_of, push_char, push_str, skip_first_char, str_eq, strip_prefix_str};

verus! {

/// The title and modifier scheme that open the shortcut docs.
pub const HEADER: &'static str = "# Keyboard shortcuts\n\nOn Linux and Windows, read ⌘ as Ctrl.\n\n## The scheme\n\nThe modifier says what a shortcut acts on. New bindings follow the tier that matches their scope, so the map stays learnable as it grows.\n\n| Modifier | Acts on | Examples |\n| -------- | ------- | -------- |\n| ⌘ + letter | the file and the text | ⌘N ⌘O ⌘S ⌘W ⌘F ⌘Z ⌘B ⌘I ⌘P ⌘E ⌘T |\n| ⌘ ⇧ + letter | the workspace | ⌘⇧F search · ⌘⇧P palette · ⌘⇧D changes · ⌘⇧G graph |\n| ⌃ ⌘ + letter | modes and environment | ⌃⌘F focus · ⌃⌘N flux |\n| ⌘ + digit | panels | ⌘1 sidebar · ⌘2 outline · ⌘3 knowledge |\n| unmodified | only inside a surface | sidebar: F2 rename · ⌘⌫ trash |\n\n⌘B also toggles the sidebar, kept from long habit in other editors: with a selection it bolds, and with a bare cursor it falls through to the panel.\n\n";

/// Which menu a command appears under. Placement inside the menu is the
/// `u8` group in `Command::menu`: a change of group emits a separator.
#[derive(Clone, Copy, PartialEq, Eq, Debug, Structural)]
pub enum MenuId {
    File,
    Edit,
    Format,
    View,
    Go,
    Tools,
    Help,
}

/// Section of the ⌘/ dialog (and the generated shortcut docs).
#[derive(Clone, Copy, PartialEq, Eq, Debug, Structural)]
pub enum HelpSection {
    General,
    Editor,
    Preview,
    Sidebar,
}

/// One user-facing command, as data.
#[derive(Clone, Copy, Debug)]
pub struct Command {
    /// Stable identifier, used by tests and the palette.
    pub id: &'static str,
    /// Menu and ⌘/ text.
    pub label: &'static str,
    /// macOS-form keystrokes. Empty means menu/palette only. The first
    /// is displayed; every one of them is bound (⌘1 plus the ⌘B alias).
    pub keys: &'static [&'static str],
    /// Key context the binding is scoped to; None binds globally.
    pub context: Option<&'static str>,
    /// Menu placement: which menu, and which separator group within it.
    pub menu: Option<(MenuId, u8)>,
    /// ⌘/ dialog section.
    pub help: Option<HelpSection>,
}

/// A command as plain values.
pub struct CommandView {
    pub id: Seq<char>,
    pub label: Seq<char>,
    pub keys: Seq<Seq<char>>,
    pub context: Option<Seq<char>>,
    pub menu: Option<(MenuId, u8)>,
    pub help: Option<HelpSection>,
}

pub open spec fn command_view(c: Command) -> CommandView {
    CommandView {
        id: c.id@,
        label: c.label@,
        keys: Seq::new(c.keys@.len(), |i: int| c.keys@[i]@),
        context: match c.context {
            Some(x) => Some(x@),
            None => None,
        },
        menu: c.menu,
        help: c.help,
    }
}

pub open spec fn commands_view(v: Seq<Command>) -> Seq<CommandView> {
    Seq::new(v.len(), |i: int| command_view(v[i]))
}

/// The command table: every command's id, label, keys, key context,
/// menu placement and help section, in declaration order.
pub open spec fn spec_commands() -> Seq<CommandView> {
    seq![
        CommandView {
            id: "new_file"@,
            label: "New File"@,
            keys: seq!["cmd-n"@],
            context: None,
            menu: Some((MenuId::File, 0u8)),
            help: Some(HelpSection::General),
        },
        CommandView {
            id: "open"@,
            label: "Open…"@,
            keys: seq!["cmd-o"@],
            context: None,
            menu: Some((MenuId::File, 0u8)),
            help: Some(HelpSection::General),
        },
        CommandView {
            id: "save"@,
            label: "Save Now"@,
            keys: seq!["cmd-s"@],
            context: Some("Editor"@),
            menu: Some((MenuId::File, 1u8)),
            help: Some(HelpSection::General),
        },
        CommandView {
            id: "close_tab"@,
            label: "Close Tab"@,
            keys: seq!["cmd-w"@],
            context: None,
            menu: Some((MenuId::File, 2u8)),
            help: Some(HelpSection::General),
        },
        CommandView {
            id: "toggle_preview"@,
            label: "Toggle Edit/Preview"@,
            keys: seq!["cmd-e"@],
            context: None,
            menu: Some((MenuId::View, 0u8)),
            help: Some(HelpSection::General),
        },
        CommandView {
            id: "show_changes"@,
            label: "Show Changes"@,
            keys: seq!["cmd-shift-d"@],
            context: None,
            menu: Some((MenuId::View, 0u8)),
            help: Some(HelpSection::General),
        },
        CommandView {
            id: "toggle_sidebar"@,
            label: "Toggle Sidebar"@,
            keys: seq!["cmd-1"@, "cmd-b"@],
            context: None,
            menu: Some((MenuId::View, 1u8)),
            help: Some(HelpSection::General),
        },
        CommandView {
            id: "toggle_outline"@,
            label: "Toggle Outline"@,
            keys: seq!["cmd-2"@],
            context: None,
            menu: Some((MenuId::View, 1u8)),
            help: Some(HelpSection::General),
        },
        CommandView {
            id: "toggle_knowledge"@,
            label: "Knowledge Panel"@,
            keys: seq!["cmd-3"@],
            context: None,
            menu: Some((MenuId::View, 1u8)),
            help: Some(HelpSection::General),
        },
        CommandView {
            id: "focus_mode"@,
            label: "Focus Mode"@,
            keys: seq!["ctrl-cmd-f"@],
            context: None,
            menu: Some((MenuId::View, 2u8)),
            help: Some(HelpSection::General),
        },
        CommandView {
            id: "flux"@,
            label: "Flux (adaptive theme)"@,
            keys: seq!["ctrl-cmd-n"@],
            context: None,
            menu: Some((MenuId::View, 2u8)),
            help: Some(HelpSection::General),
        },
        CommandView {
            id: "zoom_in"@,
            label: "Zoom In"@,
            keys: seq!["cmd-="@],
            context: None,
            menu: Some((MenuId::View, 3u8)),
            help: Some(HelpSection::General),
        },
        CommandView {
            id: "zoom_out"@,
            label: "Zoom Out"@,
            keys: seq!["cmd--"@],
            context: None,
            menu: Some((MenuId::View, 3u8)),
            help: None,
        },
        CommandView {
            id: "zoom_reset"@,
            label: "Actual Size"@,
            keys: seq!["cmd-0"@],
            context: None,
            menu: Some((MenuId::View, 3u8)),
            help: None,
        },
        CommandView {
            id: "theme"@,
            label: "Theme…"@,
            keys: seq!["cmd-t"@],
            context: None,
            menu: Some((MenuId::View, 4u8)),
            help: Some(HelpSection::General),
        },
        CommandView {
            id: "go_to_file"@,
            label: "Go to File…"@,
            keys: seq!["cmd-p"@],
            context: None,
            menu: Some((MenuId::Go, 0u8)),
            help: Some(HelpSection::General),
        },
        CommandView {
            id: "search_workspace"@,
            label: "Search in Workspace…"@,
            keys: seq!["cmd-shift-f"@],
            context: None,
            menu: Some((MenuId::Go, 0u8)),
            help: Some(HelpSection::General),
        },
        CommandView {
            id: "focus_sidebar"@,
            label: "Focus Sidebar"@,
            keys: Seq::<Seq<char>>::empty(),
            context: None,
            menu: Some((MenuId::Go, 1u8)),
            help: None,
        },
        CommandView {
            id: "next_tab"@,
            label: "Next Tab"@,
            keys: seq!["cmd-shift-]"@, "ctrl-tab"@],
            context: None,
            menu: Some((MenuId::Go, 1u8)),
            help: Some(HelpSection::General),
        },
        CommandView {
            id: "prev_tab"@,
            label: "Previous Tab"@,
            keys: seq!["cmd-shift-["@, "ctrl-shift-tab"@],
            context: None,
            menu: Some((MenuId::Go, 1u8)),
            help: Some(HelpSection::General),
        },
        CommandView {
            id: "follow_link"@,
            label: "Follow Link"@,
            keys: seq!["cmd-enter"@],
            context: Some("Editor"@),
            menu: Some((MenuId::Go, 2u8)),
            help: Some(HelpSection::Editor),
        },
        CommandView {
            id: "graph"@,
            label: "Graph View"@,
            keys: seq!["cmd-shift-g"@],
            context: None,
            menu: Some((MenuId::Go, 0u8)),
            help: Some(HelpSection::General),
        },
        CommandView {
            id: "palette"@,
            label: "Command Palette…"@,
            keys: seq!["cmd-shift-p"@],
            context: None,
            menu: Some((MenuId::Tools, 0u8)),
            help: Some(HelpSection::General),
        },
        CommandView {
            id: "install_plugins"@,
            label: "Install Plugins…"@,
            keys: Seq::<Seq<char>>::empty(),
            context: None,
            menu: Some((MenuId::Tools, 1u8)),
            help: None,
        },
        CommandView {
            id: "plugins_folder"@,
            label: "Open Plugins Folder"@,
            keys: Seq::<Seq<char>>::empty(),
            context: None,
            menu: Some((MenuId::Tools, 1u8)),
            help: None,
        },
        CommandView {
            id: "reload_plugins"@,
            label: "Reload Plugins"@,
            keys: Seq::<Seq<char>>::empty(),
            context: None,
            menu: Some((MenuId::Tools, 1u8)),
            help: None,
        },
        CommandView {
            id: "shortcuts"@,
            label: "Keyboard Shortcuts"@,
            keys: seq!["cmd-/"@],
            context: None,
            menu: Some((MenuId::Help, 0u8)),
            help: Some(HelpSection::General),
        },
        CommandView {
            id: "about"@,
            label: "About SuperMD"@,
            keys: Seq::<Seq<char>>::empty(),
            context: None,
            menu: Some((MenuId::Help, 1u8)),
            help: None,
        },
        CommandView {
            id: "settings_folder"@,
            label: "Reveal Settings Folder"@,
            keys: Seq::<Seq<char>>::empty(),
            context: None,
            menu: Some((MenuId::Help, 1u8)),
            help: None,
        },
        CommandView {
            id: "undo"@,
            label: "Undo"@,
            keys: seq!["cmd-z"@],
            context: Some("Editor"@),
            menu: Some((MenuId::Edit, 0u8)),
            help: Some(HelpSection::Editor),
        },
        CommandView {
            id: "redo"@,
            label: "Redo"@,
            keys: seq!["cmd-shift-z"@],
            context: Some("Editor"@),
            menu: Some((MenuId::Edit, 0u8)),
            help: Some(HelpSection::Editor),
        },
        CommandView {
            id: "cut"@,
            label: "Cut"@,
            keys: seq!["cmd-x"@],
            context: Some("Editor"@),
            menu: Some((MenuId::Edit, 1u8)),
            help: None,
        },
        CommandView {
            id: "copy"@,
            label: "Copy"@,
            keys: seq!["cmd-c"@],
            context: Some("Editor"@),
            menu: Some((MenuId::Edit, 1u8)),
            help: None,
        },
        CommandView {
            id: "paste"@,
            label: "Paste"@,
            keys: seq!["cmd-v"@],
            context: Some("Editor"@),
            menu: Some((MenuId::Edit, 1u8)),
            help: None,
        },
        CommandView {
            id: "select_all"@,
            label: "Select All"@,
            keys: seq!["cmd-a"@],
            context: Some("Editor"@),
            menu: Some((MenuId::Edit, 1u8)),
            help: None,
        },
        CommandView {
            id: "find"@,
            label: "Find in File"@,
            keys: seq!["cmd-f"@],
            context: Some("Editor"@),
            menu: Some((MenuId::Edit, 2u8)),
            help: Some(HelpSection::Editor),
        },
        CommandView {
            id: "find_next"@,
            label: "Find Next"@,
            keys: seq!["cmd-g"@],
            context: Some("Editor"@),
            menu: Some((MenuId::Edit, 2u8)),
            help: Some(HelpSection::Editor),
        },
        CommandView {
            id: "find_prev"@,
            label: "Find Previous"@,
            keys: seq!["cmd-shift-g"@],
            context: Some("Editor"@),
            menu: Some((MenuId::Edit, 2u8)),
            help: Some(HelpSection::Editor),
        },
        CommandView {
            id: "bold"@,
            label: "Bold"@,
            keys: seq!["cmd-b"@],
            context: Some("Editor"@),
            menu: Some((MenuId::Format, 0u8)),
            help: Some(HelpSection::Editor),
        },
        CommandView {
            id: "italic"@,
            label: "Italic"@,
            keys: seq!["cmd-i"@],
            context: Some("Editor"@),
            menu: Some((MenuId::Format, 0u8)),
            help: Some(HelpSection::Editor),
        },
        CommandView {
            id: "code"@,
            label: "Code"@,
            keys: Seq::<Seq<char>>::empty(),
            context: Some("Editor"@),
            menu: Some((MenuId::Format, 0u8)),
            help: None,
        },
        CommandView {
            id: "strike"@,
            label: "Strikethrough"@,
            keys: Seq::<Seq<char>>::empty(),
            context: Some("Editor"@),
            menu: Some((MenuId::Format, 0u8)),
            help: None,
        },
        CommandView {
            id: "link"@,
            label: "Link"@,
            keys: Seq::<Seq<char>>::empty(),
            context: Some("Editor"@),
            menu: Some((MenuId::Format, 0u8)),
            help: None,
        },
        CommandView {
            id: "heading"@,
            label: "Heading"@,
            keys: Seq::<Seq<char>>::empty(),
            context: Some("Editor"@),
            menu: Some((MenuId::Format, 1u8)),
            help: None,
        },
        CommandView {
            id: "quote"@,
            label: "Quote"@,
            keys: Seq::<Seq<char>>::empty(),
            context: Some("Editor"@),
            menu: Some((MenuId::Format, 1u8)),
            help: None,
        },
        CommandView {
            id: "sidebar_new_file"@,
            label: "New File Here"@,
            keys: seq!["cmd-n"@],
            context: Some("Sidebar"@),
            menu: None,
            help: Some(HelpSection::Sidebar),
        },
        CommandView {
            id: "sidebar_new_folder"@,
            label: "New Folder Here"@,
            keys: seq!["cmd-shift-n"@],
            context: Some("Sidebar"@),
            menu: None,
            help: Some(HelpSection::Sidebar),
        },
        CommandView {
            id: "sidebar_rename"@,
            label: "Rename"@,
            keys: seq!["f2"@],
            context: Some("Sidebar"@),
            menu: None,
            help: Some(HelpSection::Sidebar),
        },
        CommandView {
            id: "sidebar_delete"@,
            label: "Delete to Trash"@,
            keys: seq!["cmd-backspace"@],
            context: Some("Sidebar"@),
            menu: None,
            help: Some(HelpSection::Sidebar),
        },
        CommandView {
            id: "sidebar_move"@,
            label: "Move to Folder…"@,
            keys: seq!["cmd-shift-m"@],
            context: Some("Sidebar"@),
            menu: None,
            help: Some(HelpSection::Sidebar),
        },
        CommandView {
            id: "reader_up"@,
            label: "Scroll Up"@,
            keys: seq!["up"@],
            context: Some("Reader"@),
            menu: None,
            help: Some(HelpSection::Preview),
        },
        CommandView {
            id: "reader_down"@,
            label: "Scroll Down"@,
            keys: seq!["down"@],
            context: Some("Reader"@),
            menu: None,
            help: Some(HelpSection::Preview),
        },
        CommandView {
            id: "reader_pageup"@,
            label: "Page Up"@,
            keys: seq!["pageup"@],
            context: Some("Reader"@),
            menu: None,
            help: Some(HelpSection::Preview),
        },
        CommandView {
            id: "reader_pagedown"@,
            label: "Page Down"@,
            keys: seq!["pagedown"@],
            context: Some("Reader"@),
            menu: None,
            help: Some(HelpSection::Preview),
        },
        CommandView {
            id: "reader_top"@,
            label: "Go to Start"@,
            keys: seq!["home"@],
            context: Some("Reader"@),
            menu: None,
            help: Some(HelpSection::Preview),
        },
        CommandView {
            id: "reader_bottom"@,
            label: "Go to End"@,
            keys: seq!["end"@],
            context: Some("Reader"@),
            menu: None,
            help: Some(HelpSection::Preview),
        },
    ]
}

/// Whether a command shows on some surface: a menu, the ⌘/ dialog, or
/// a key binding.
pub open spec fn reachable(c: Command) -> bool {
    c.menu is Some || c.help is Some || c.keys@.len() > 0
}

/// Every command, in declaration order; each one is reachable from some
/// surface.
pub fn commands() -> (r: Vec<Command>)
    ensures
        commands_view(r@) == spec_commands(),
        r@.len() == 56,
        forall|i: int| 0 <= i < r@.len() ==> reachable(#[trigger] r@[i]),
{
    let r = vec![
        Command {
            id: "new_file",
            label: "New File",
            keys: &["cmd-n"],
            context: None,
            menu: Some((MenuId::File, 0)),
            help: Some(HelpSection::General),
        },
        Command {
            id: "open",
            label: "Open…",
            keys: &["cmd-o"],
            context: None,
            menu: Some((MenuId::File, 0)),
            help: Some(HelpSection::General),
        },
        Command {
            id: "save",
            label: "Save Now",
            keys: &["cmd-s"],
            context: Some("Editor"),
            menu: Some((MenuId::File, 1)),
            help: Some(HelpSection::General),
        },
        Command {
            id: "close_tab",
            label: "Close Tab",
            keys: &["cmd-w"],
            context: None,
            menu: Some((MenuId::File, 2)),
            help: Some(HelpSection::General),
        },
        Command {
            id: "toggle_preview",
            label: "Toggle Edit/Preview",
            keys: &["cmd-e"],
            context: None,
            menu: Some((MenuId::View, 0)),
            help: Some(HelpSection::General),
        },
        Command {
            id: "show_changes",
            label: "Show Changes",
            keys: &["cmd-shift-d"],
            context: None,
            menu: Some((MenuId::View, 0)),
            help: Some(HelpSection::General),
        },
        Command {
            id: "toggle_sidebar",
            label: "Toggle Sidebar",
            keys: &["cmd-1", "cmd-b"],
            context: None,
            menu: Some((MenuId::View, 1)),
            help: Some(HelpSection::General),
        },
        Command {
            id: "toggle_outline",
            label: "Toggle Outline",
            keys: &["cmd-2"],
            context: None,
            menu: Some((MenuId::View, 1)),
            help: Some(HelpSection::General),
        },
        Command {
            id: "toggle_knowledge",
            label: "Knowledge Panel",
            keys: &["cmd-3"],
            context: None,
            menu: Some((MenuId::View, 1)),
            help: Some(HelpSection::General),
        },
        Command {
            id: "focus_mode",
            label: "Focus Mode",
            keys: &["ctrl-cmd-f"],
            context: None,
            menu: Some((MenuId::View, 2)),
            help: Some(HelpSection::General),
        },
        Command {
            id: "flux",
            label: "Flux (adaptive theme)",
            keys: &["ctrl-cmd-n"],
            context: None,
            menu: Some((MenuId::View, 2)),
            help: Some(HelpSection::General),
        },
        Command {
            id: "zoom_in",
            label: "Zoom In",
            keys: &["cmd-="],
            context: None,
            menu: Some((MenuId::View, 3)),
            help: Some(HelpSection::General),
        },
        Command {
            id: "zoom_out",
            label: "Zoom Out",
            keys: &["cmd--"],
            context: None,
            menu: Some((MenuId::View, 3)),
            help: None,
        },
        Command {
            id: "zoom_reset",
            label: "Actual Size",
            keys: &["cmd-0"],
            context: None,
            menu: Some((MenuId::View, 3)),
            help: None,
        },
        Command {
            id: "theme",
            label: "Theme…",
            keys: &["cmd-t"],
            context: None,
            menu: Some((MenuId::View, 4)),
            help: Some(HelpSection::General),
        },
        Command {
            id: "go_to_file",
            label: "Go to File…",
            keys: &["cmd-p"],
            context: None,
            menu: Some((MenuId::Go, 0)),
            help: Some(HelpSection::General),
        },
        Command {
            id: "search_workspace",
            label: "Search in Workspace…",
            keys: &["cmd-shift-f"],
            context: None,
            menu: Some((MenuId::Go, 0)),
            help: Some(HelpSection::General),
        },
        Command {
            id: "focus_sidebar",
            label: "Focus Sidebar",
            keys: &[],
            context: None,
            menu: Some((MenuId::Go, 1)),
            help: None,
        },
        Command {
            id: "next_tab",
            label: "Next Tab",
            keys: &["cmd-shift-]", "ctrl-tab"],
            context: None,
            menu: Some((MenuId::Go, 1)),
            help: Some(HelpSection::General),
        },
        Command {
            id: "prev_tab",
            label: "Previous Tab",
            keys: &["cmd-shift-[", "ctrl-shift-tab"],
            context: None,
            menu: Some((MenuId::Go, 1)),
            help: Some(HelpSection::General),
        },
        Command {
            id: "follow_link",
            label: "Follow Link",
            keys: &["cmd-enter"],
            context: Some("Editor"),
            menu: Some((MenuId::Go, 2)),
            help: Some(HelpSection::Editor),
        },
        Command {
            id: "graph",
            label: "Graph View",
            keys: &["cmd-shift-g"],
            context: None,
            menu: Some((MenuId::Go, 0)),
            help: Some(HelpSection::General),
        },
        Command {
            id: "palette",
            label: "Command Palette…",
            keys: &["cmd-shift-p"],
            context: None,
            menu: Some((MenuId::Tools, 0)),
            help: Some(HelpSection::General),
        },
        Command {
            id: "install_plugins",
            label: "Install Plugins…",
            keys: &[],
            context: None,
            menu: Some((MenuId::Tools, 1)),
            help: None,
        },
        Command {
            id: "plugins_folder",
            label: "Open Plugins Folder",
            keys: &[],
            context: None,
            menu: Some((MenuId::Tools, 1)),
            help: None,
        },
        Command {
            id: "reload_plugins",
            label: "Reload Plugins",
            keys: &[],
            context: None,
            menu: Some((MenuId::Tools, 1)),
            help: None,
        },
        Command {
            id: "shortcuts",
            label: "Keyboard Shortcuts",
            keys: &["cmd-/"],
            context: None,
            menu: Some((MenuId::Help, 0)),
            help: Some(HelpSection::General),
        },
        Command {
            id: "about",
            label: "About SuperMD",
            keys: &[],
            context: None,
            menu: Some((MenuId::Help, 1)),
            help: None,
        },
        Command {
            id: "settings_folder",
            label: "Reveal Settings Folder",
            keys: &[],
            context: None,
            menu: Some((MenuId::Help, 1)),
            help: None,
        },
        Command {
            id: "undo",
            label: "Undo",
            keys: &["cmd-z"],
            context: Some("Editor"),
            menu: Some((MenuId::Edit, 0)),
            help: Some(HelpSection::Editor),
        },
        Command {
            id: "redo",
            label: "Redo",
            keys: &["cmd-shift-z"],
            context: Some("Editor"),
            menu: Some((MenuId::Edit, 0)),
            help: Some(HelpSection::Editor),
        },
        Command {
            id: "cut",
            label: "Cut",
            keys: &["cmd-x"],
            context: Some("Editor"),
            menu: Some((MenuId::Edit, 1)),
            help: None,
        },
        Command {
            id: "copy",
            label: "Copy",
            keys: &["cmd-c"],
            context: Some("Editor"),
            menu: Some((MenuId::Edit, 1)),
            help: None,
        },
        Command {
            id: "paste",
            label: "Paste",
            keys: &["cmd-v"],
            context: Some("Editor"),
            menu: Some((MenuId::Edit, 1)),
            help: None,
        },
        Command {
            id: "select_all",
            label: "Select All",
            keys: &["cmd-a"],
            context: Some("Editor"),
            menu: Some((MenuId::Edit, 1)),
            help: None,
        },
        Command {
            id: "find",
            label: "Find in File",
            keys: &["cmd-f"],
            context: Some("Editor"),
            menu: Some((MenuId::Edit, 2)),
            help: Some(HelpSection::Editor),
        },
        Command {
            id: "find_next",
            label: "Find Next",
            keys: &["cmd-g"],
            context: Some("Editor"),
            menu: Some((MenuId::Edit, 2)),
            help: Some(HelpSection::Editor),
        },
        Command {
            id: "find_prev",
            label: "Find Previous",
            keys: &["cmd-shift-g"],
            context: Some("Editor"),
            menu: Some((MenuId::Edit, 2)),
            help: Some(HelpSection::Editor),
        },
        Command {
            id: "bold",
            label: "Bold",
            keys: &["cmd-b"],
            context: Some("Editor"),
            menu: Some((MenuId::Format, 0)),
            help: Some(HelpSection::Editor),
        },
        Command {
            id: "italic",
            label: "Italic",
            keys: &["cmd-i"],
            context: Some("Editor"),
            menu: Some((MenuId::Format, 0)),
            help: Some(HelpSection::Editor),
        },
        Command {
            id: "code",
            label: "Code",
            keys: &[],
            context: Some("Editor"),
            menu: Some((MenuId::Format, 0)),
            help: None,
        },
        Command {
            id: "strike",
            label: "Strikethrough",
            keys: &[],
            context: Some("Editor"),
            menu: Some((MenuId::Format, 0)),
            help: None,
        },
        Command {
            id: "link",
            label: "Link",
            keys: &[],
            context: Some("Editor"),
            menu: Some((MenuId::Format, 0)),
            help: None,
        },
        Command {
            id: "heading",
            label: "Heading",
            keys: &[],
            context: Some("Editor"),
            menu: Some((MenuId::Format, 1)),
            help: None,
        },
        Command {
            id: "quote",
            label: "Quote",
            keys: &[],
            context: Some("Editor"),
            menu: Some((MenuId::Format, 1)),
            help: None,
        },
        Command {
            id: "sidebar_new_file",
            label: "New File Here",
            keys: &["cmd-n"],
            context: Some("Sidebar"),
            menu: None,
            help: Some(HelpSection::Sidebar),
        },
        Command {
            id: "sidebar_new_folder",
            label: "New Folder Here",
            keys: &["cmd-shift-n"],
            context: Some("Sidebar"),
            menu: None,
            help: Some(HelpSection::Sidebar),
        },
        Command {
            id: "sidebar_rename",
            label: "Rename",
            keys: &["f2"],
            context: Some("Sidebar"),
            menu: None,
            help: Some(HelpSection::Sidebar),
        },
        Command {
            id: "sidebar_delete",
            label: "Delete to Trash",
            keys: &["cmd-backspace"],
            context: Some("Sidebar"),
            menu: None,
            help: Some(HelpSection::Sidebar),
        },
        Command {
            id: "sidebar_move",
            label: "Move to Folder…",
            keys: &["cmd-shift-m"],
            context: Some("Sidebar"),
            menu: None,
            help: Some(HelpSection::Sidebar),
        },
        Command {
            id: "reader_up",
            label: "Scroll Up",
            keys: &["up"],
            context: Some("Reader"),
            menu: None,
            help: Some(HelpSection::Preview),
        },
        Command {
            id: "reader_down",
            label: "Scroll Down",
            keys: &["down"],
            context: Some("Reader"),
            menu: None,
            help: Some(HelpSection::Preview),
        },
        Command {
            id: "reader_pageup",
            label: "Page Up",
            keys: &["pageup"],
            context: Some("Reader"),
            menu: None,
            help: Some(HelpSection::Preview),
        },
        Command {
            id: "reader_pagedown",
            label: "Page Down",
            keys: &["pagedown"],
            context: Some("Reader"),
            menu: None,
            help: Some(HelpSection::Preview),
        },
        Command {
            id: "reader_top",
            label: "Go to Start",
            keys: &["home"],
            context: Some("Reader"),
            menu: None,
            help: Some(HelpSection::Preview),
        },
        Command {
            id: "reader_bottom",
            label: "Go to End",
            keys: &["end"],
            context: Some("Reader"),
            menu: None,
            help: Some(HelpSection::Preview),
        },
    ];
    proof {
        assert(command_view(r@[0]).keys =~= spec_commands()[0].keys);
        assert(command_view(r@[1]).keys =~= spec_commands()[1].keys);
        assert(command_view(r@[2]).keys =~= spec_commands()[2].keys);
        assert(command_view(r@[3]).keys =~= spec_commands()[3].keys);
        assert(command_view(r@[4]).keys =~= spec_commands()[4].keys);
        assert(command_view(r@[5]).keys =~= spec_commands()[5].keys);
        assert(command_view(r@[6]).keys =~= spec_commands()[6].keys);
        assert(command_view(r@[7]).keys =~= spec_commands()[7].keys);
        assert(command_view(r@[8]).keys =~= spec_commands()[8].keys);
        assert(command_view(r@[9]).keys =~= spec_commands()[9].keys);
        assert(command_view(r@[10]).keys =~= spec_commands()[10].keys);
        assert(command_view(r@[11]).keys =~= spec_commands()[11].keys);
        assert(command_view(r@[12]).keys =~= spec_commands()[12].keys);
        assert(command_view(r@[13]).keys =~= spec_commands()[13].keys);
        assert(command_view(r@[14]).keys =~= spec_commands()[14].keys);
        assert(command_view(r@[15]).keys =~= spec_commands()[15].keys);
        assert(command_view(r@[16]).keys =~= spec_commands()[16].keys);
        assert(command_view(r@[17]).keys =~= spec_commands()[17].keys);
        assert(command_view(r@[18]).keys =~= spec_commands()[18].keys);
        assert(command_view(r@[19]).keys =~= spec_commands()[19].keys);
        assert(command_view(r@[20]).keys =~= spec_commands()[20].keys);
        assert(command_view(r@[21]).keys =~= spec_commands()[21].keys);
        assert(command_view(r@[22]).keys =~= spec_commands()[22].keys);
        assert(command_view(r@[23]).keys =~= spec_commands()[23].keys);
        assert(command_view(r@[24]).keys =~= spec_commands()[24].keys);
        assert(command_view(r@[25]).keys =~= spec_commands()[25].keys);
        assert(command_view(r@[26]).keys =~= spec_commands()[26].keys);
        assert(command_view(r@[27]).keys =~= spec_commands()[27].keys);
        assert(command_view(r@[28]).keys =~= spec_commands()[28].keys);
        assert(command_view(r@[29]).keys =~= spec_commands()[29].keys);
        assert(command_view(r@[30]).keys =~= spec_commands()[30].keys);
        assert(command_view(r@[31]).keys =~= spec_commands()[31].keys);
        assert(command_view(r@[32]).keys =~= spec_commands()[32].keys);
        assert(command_view(r@[33]).keys =~= spec_commands()[33].keys);
        assert(command_view(r@[34]).keys =~= spec_commands()[34].keys);
        assert(command_view(r@[35]).keys =~= spec_commands()[35].keys);
        assert(command_view(r@[36]).keys =~= spec_commands()[36].keys);
        assert(command_view(r@[37]).keys =~= spec_commands()[37].keys);
        assert(command_view(r@[38]).keys =~= spec_commands()[38].keys);
        assert(command_view(r@[39]).keys =~= spec_commands()[39].keys);
        assert(command_view(r@[40]).keys =~= spec_commands()[40].keys);
        assert(command_view(r@[41]).keys =~= spec_commands()[41].keys);
        assert(command_view(r@[42]).keys =~= spec_commands()[42].keys);
        assert(command_view(r@[43]).keys =~= spec_commands()[43].keys);
        assert(command_view(r@[44]).keys =~= spec_commands()[44].keys);
        assert(command_view(r@[45]).keys =~= spec_commands()[45].keys);
        assert(command_view(r@[46]).keys =~= spec_commands()[46].keys);
        assert(command_view(r@[47]).keys =~= spec_commands()[47].keys);
        assert(command_view(r@[48]).keys =~= spec_commands()[48].keys);
        assert(command_view(r@[49]).keys =~= spec_commands()[49].keys);
        assert(command_view(r@[50]).keys =~= spec_commands()[50].keys);
        assert(command_view(r@[51]).keys =~= spec_commands()[51].keys);
        assert(command_view(r@[52]).keys =~= spec_commands()[52].keys);
        assert(command_view(r@[53]).keys =~= spec_commands()[53].keys);
        assert(command_view(r@[54]).keys =~= spec_commands()[54].keys);
        assert(command_view(r@[55]).keys =~= spec_commands()[55].keys);
        assert(commands_view(r@) =~= spec_commands());
    }
    r
}

/// `char::to_uppercase`, collected: the characters `c` maps to.
pub uninterp spec fn spec_to_uppercase(c: char) -> Seq<char>;

/// `char::to_uppercase`, collected into a string. Its result is named
/// `spec_to_uppercase`; per std's documentation an ASCII lowercase
/// letter maps to its ASCII capital and any other ASCII character maps
/// to itself. What it does outside ASCII (Unicode's case tables) is left
/// to the name.
#[verifier::external_body]
fn to_uppercase(c: char) -> (r: String)
    ensures
        r@ == spec_to_uppercase(c),
        'a' <= c <= 'z' ==> r@ == seq![((c as u32) - 32) as char],
        (c as u32) < 128 && !('a' <= c <= 'z') ==> r@ == seq![c],
{
    c.to_uppercase().collect()
}

/// The modifier prefixes and their glyphs, longest-first so `ctrl-`
/// cannot shadow anything.
pub open spec fn modifier(i: int) -> (Seq<char>, Seq<char>) {
    if i == 0 {
        (seq!['c', 'm', 'd', '-'], seq!['\u{2318}'])
    } else if i == 1 {
        (seq!['s', 'h', 'i', 'f', 't', '-'], seq!['\u{21e7}'])
    } else if i == 2 {
        (seq!['a', 'l', 't', '-'], seq!['\u{2325}'])
    } else {
        (seq!['c', 't', 'r', 'l', '-'], seq!['\u{2303}'])
    }
}

/// The first modifier (from `i` on) that prefixes `k`.
pub open spec fn first_modifier(k: Seq<char>, i: int) -> Option<int>
    decreases 4 - i,
{
    if i >= 4 || i < 0 {
        None
    } else if modifier(i).0.len() <= k.len() && k.take(modifier(i).0.len() as int) == modifier(i).0 {
        Some(i)
    } else {
        first_modifier(k, i + 1)
    }
}

pub proof fn lemma_first_modifier(k: Seq<char>, i: int)
    requires
        0 <= i <= 4,
    ensures
        first_modifier(k, i) matches Some(j) ==> i <= j < 4 && 0 < modifier(j).0.len() <= k.len()
            && k.take(modifier(j).0.len() as int) == modifier(j).0,
    decreases 4 - i,
{
    if i < 4 {
        lemma_first_modifier(k, i + 1);
    }
}

/// The non-modifier tail of a keystroke, as it should read on screen.
pub open spec fn spec_key_glyph(key: Seq<char>) -> Seq<char> {
    if key == "enter"@ {
        "\u{23ce}"@
    } else if key == "backspace"@ {
        "\u{232b}"@
    } else if key == "delete"@ {
        "\u{2326}"@
    } else if key == "escape"@ {
        "esc"@
    } else if key == "tab"@ {
        "Tab"@
    } else if key == "left"@ {
        "\u{2190}"@
    } else if key == "right"@ {
        "\u{2192}"@
    } else if key == "up"@ {
        "\u{2191}"@
    } else if key == "down"@ {
        "\u{2193}"@
    } else if key == "pageup"@ {
        "PgUp"@
    } else if key == "pagedown"@ {
        "PgDn"@
    } else if key == "home"@ {
        "Home"@
    } else if key == "end"@ {
        "End"@
    } else if key == "-"@ {
        "\u{2212}"@
    } else if key.len() == 0 {
        seq![]
    } else {
        spec_to_uppercase(key[0]) + key.drop_first()
    }
}

/// A macOS-form keystroke as display glyphs: each modifier prefix
/// becomes its glyph, then the key; all separated by spaces.
pub open spec fn spec_glyphs(k: Seq<char>) -> Seq<char>
    decreases k.len(),
{
    proof {
        lemma_first_modifier(k, 0);
    }
    match first_modifier(k, 0) {
        Some(i) => if 0 <= i < 4 {
            modifier(i).1 + seq![' '] + spec_glyphs(k.skip(modifier(i).0.len() as int))
        } else {
            seq![]
        },
        None => spec_key_glyph(k),
    }
}

/// Strips the first modifier prefix of `rest`, if any.
fn strip_modifier(rest: &str) -> (r: Option<(&'static str, &str)>)
    ensures
        r is None <==> first_modifier(rest@, 0) is None,
        r matches Some((g, tail)) ==> {
            let i = first_modifier(rest@, 0)->0;
            &&& 0 <= i < 4
            &&& g@ == modifier(i).1
            &&& tail@ == rest@.skip(modifier(i).0.len() as int)
        },
{
    proof {
        reveal_strlit("cmd-");
        reveal_strlit("shift-");
        reveal_strlit("alt-");
        reveal_strlit("ctrl-");
        reveal_strlit("\u{2318}");
        reveal_strlit("\u{21e7}");
        reveal_strlit("\u{2325}");
        reveal_strlit("\u{2303}");
        assert("cmd-"@ =~= modifier(0).0);
        assert("shift-"@ =~= modifier(1).0);
        assert("alt-"@ =~= modifier(2).0);
        assert("ctrl-"@ =~= modifier(3).0);
        assert("\u{2318}"@ =~= modifier(0).1);
        assert("\u{21e7}"@ =~= modifier(1).1);
        assert("\u{2325}"@ =~= modifier(2).1);
        assert("\u{2303}"@ =~= modifier(3).1);
        reveal_with_fuel(first_modifier, 5);
    }
    if let Some(t) = strip_prefix_str(rest, "cmd-") {
        return Some(("\u{2318}", t));
    }
    if let Some(t) = strip_prefix_str(rest, "shift-") {
        return Some(("\u{21e7}", t));
    }
    if let Some(t) = strip_prefix_str(rest, "alt-") {
        return Some(("\u{2325}", t));
    }
    if let Some(t) = strip_prefix_str(rest, "ctrl-") {
        return Some(("\u{2303}", t));
    }
    None
}

/// The non-modifier tail of a keystroke, as it should read on screen.
fn key_glyph(key: &str) -> (r: String)
    ensures
        r@ == spec_key_glyph(key@),
{
    let mut out = String::new();
    let lit: &str = if str_eq(key, "enter") {
        "\u{23ce}"
    } else if str_eq(key, "backspace") {
        "\u{232b}"
    } else if str_eq(key, "delete") {
        "\u{2326}"
    } else if str_eq(key, "escape") {
        "esc"
    } else if str_eq(key, "tab") {
        "Tab"
    } else if str_eq(key, "left") {
        "\u{2190}"
    } else if str_eq(key, "right") {
        "\u{2192}"
    } else if str_eq(key, "up") {
        "\u{2191}"
    } else if str_eq(key, "down") {
        "\u{2193}"
    } else if str_eq(key, "pageup") {
        "PgUp"
    } else if str_eq(key, "pagedown") {
        "PgDn"
    } else if str_eq(key, "home") {
        "Home"
    } else if str_eq(key, "end") {
        "End"
    } else if str_eq(key, "-") {
        "\u{2212}"
    } else {
        let v = chars_of(key);
        if v.len() == 0 {
            assert(out@ =~= spec_key_glyph(key@));
            return out;
        }
        let mut first = to_uppercase(v[0]);
        push_str(&mut first, skip_first_char(key));
        return first;
    };
    push_str(&mut out, lit);
    assert(out@ =~= spec_key_glyph(key@));
    out
}

/// A macOS-form keystroke as display glyphs: `cmd-shift-d` → `⌘ ⇧ D`.
/// The platform layer converts the result for other platforms, so this
/// stays macOS-form exactly like the keystrokes themselves.
///
/// Modifiers are stripped as prefixes rather than by splitting on `-`:
/// the key itself may *be* a hyphen (`cmd--` is Zoom Out), which
/// splitting would turn into empty segments.
pub fn glyphs(keystroke: &str) -> (r: String)
    ensures
        r@ == spec_glyphs(keystroke@),
{
    let mut rest = keystroke;
    let mut out = String::new();
    loop
        invariant
            out@ + spec_glyphs(rest@) == spec_glyphs(keystroke@),
        ensures
            out@ + spec_glyphs(rest@) == spec_glyphs(keystroke@),
            first_modifier(rest@, 0) is None,
        decreases rest@.len(),
    {
        match strip_modifier(rest) {
            Some((g, tail)) => {
                let ghost before = out@;
                proof {
                    lemma_first_modifier(rest@, 0);
                    reveal_strlit(" ");
                }
                push_str(&mut out, g);
                push_str(&mut out, " ");
                assert(out@ + spec_glyphs(tail@) =~= before + spec_glyphs(rest@));
                rest = tail;
            },
            None => {
                break ;
            },
        }
    }
    let k = key_glyph(rest);
    push_str(&mut out, k.as_str());
    out
}

/// Menu-bar order, and the order the ☰ popover renders its groups.
pub const MENU_ORDER: [MenuId; 7] = [
    MenuId::File,
    MenuId::Edit,
    MenuId::Format,
    MenuId::View,
    MenuId::Go,
    MenuId::Tools,
    MenuId::Help,
];

pub open spec fn menu_at(i: int) -> MenuId {
    if i == 0 {
        MenuId::File
    } else if i == 1 {
        MenuId::Edit
    } else if i == 2 {
        MenuId::Format
    } else if i == 3 {
        MenuId::View
    } else if i == 4 {
        MenuId::Go
    } else if i == 5 {
        MenuId::Tools
    } else {
        MenuId::Help
    }
}

pub open spec fn spec_menu_title(id: MenuId) -> Seq<char> {
    match id {
        MenuId::File => "File"@,
        MenuId::Edit => "Edit"@,
        MenuId::Format => "Format"@,
        MenuId::View => "View"@,
        MenuId::Go => "Go"@,
        MenuId::Tools => "Tools"@,
        MenuId::Help => "Help"@,
    }
}

pub fn menu_title(id: MenuId) -> (r: &'static str)
    ensures
        r@ == spec_menu_title(id),
{
    match id {
        MenuId::File => "File",
        MenuId::Edit => "Edit",
        MenuId::Format => "Format",
        MenuId::View => "View",
        MenuId::Go => "Go",
        MenuId::Tools => "Tools",
        MenuId::Help => "Help",
    }
}

/// Whether `c` is listed in menu `id`. About is a macOS app-menu item
/// there (`about_in_app_menu`), and a Help item elsewhere.
pub open spec fn in_menu(c: Command, id: MenuId, about_in_app_menu: bool) -> bool {
    &&& c.menu matches Some((m, _)) && m == id
    &&& !(c.id@ == "about"@ && about_in_app_menu)
}

/// The commands of menu `id`, in table order.
pub open spec fn spec_items_for(table: Seq<Command>, id: MenuId, about_in_app_menu: bool) -> Seq<Command>
    decreases table.len(),
{
    if table.len() == 0 {
        seq![]
    } else {
        let rest = spec_items_for(table.drop_last(), id, about_in_app_menu);
        if in_menu(table.last(), id, about_in_app_menu) {
            rest.push(table.last())
        } else {
            rest
        }
    }
}

/// Commands in one menu, in declaration order -- which the table keeps
/// grouped, so group indices come out ascending.
pub fn items_for(table: &[Command], id: MenuId, about_in_app_menu: bool) -> (r: Vec<Command>)
    ensures
        r@ == spec_items_for(table@, id, about_in_app_menu),
{
    let mut out: Vec<Command> = Vec::new();
    let mut i: usize = 0;
    assert(table@.take(0) =~= Seq::<Command>::empty());
    while i < table.len()
        invariant
            i <= table@.len(),
            out@ == spec_items_for(table@.take(i as int), id, about_in_app_menu),
        decreases table@.len() - i,
    {
        let c = table[i];
        assert(table@.take(i + 1).drop_last() =~= table@.take(i as int));
        let listed = match c.menu {
            Some((m, _)) => m == id,
            None => false,
        };
        if listed && !(str_eq(c.id, "about") && about_in_app_menu) {
            out.push(c);
        }
        i += 1;
    }
    assert(table@.take(table@.len() as int) =~= table@);
    out
}

/// The About command, for the macOS app menu: the first entry whose id
/// is `about`.
pub fn about_command(table: &[Command]) -> (r: Command)
    requires
        exists|i: int| 0 <= i < table@.len() && (#[trigger] table@[i]).id@ == "about"@,
    ensures
        exists|i: int|
            0 <= i < table@.len() && table@[i] == r && r.id@ == "about"@ && forall|j: int|
                0 <= j < i ==> (#[trigger] table@[j]).id@ != "about"@,
{
    let mut i: usize = 0;
    while i < table.len()
        invariant
            i <= table@.len(),
            exists|k: int| i <= k < table@.len() && (#[trigger] table@[k]).id@ == "about"@,
            forall|j: int| 0 <= j < i ==> (#[trigger] table@[j]).id@ != "about"@,
        decreases table@.len() - i,
    {
        if str_eq(table[i].id, "about") {
            return table[i];
        }
        i += 1;
    }
    table[0]
}

pub open spec fn help_at(i: int) -> HelpSection {
    if i == 0 {
        HelpSection::General
    } else if i == 1 {
        HelpSection::Editor
    } else if i == 2 {
        HelpSection::Preview
    } else {
        HelpSection::Sidebar
    }
}

pub open spec fn spec_help_title(s: HelpSection) -> Seq<char> {
    match s {
        HelpSection::General => "General"@,
        HelpSection::Editor => "Editor"@,
        HelpSection::Preview => "Preview & read-only tabs"@,
        HelpSection::Sidebar => "Sidebar"@,
    }
}

fn help_title(section: HelpSection) -> (r: &'static str)
    ensures
        r@ == spec_help_title(section),
{
    match section {
        HelpSection::General => "General",
        HelpSection::Editor => "Editor",
        HelpSection::Preview => "Preview & read-only tabs",
        HelpSection::Sidebar => "Sidebar",
    }
}

/// The ⌘/ rows of one section: the first (canonical) key of each
/// command in it, as glyphs, with the command's label.
pub open spec fn help_rows(table: Seq<Command>, sec: HelpSection) -> Seq<(Seq<char>, Seq<char>)>
    decreases table.len(),
{
    if table.len() == 0 {
        seq![]
    } else {
        let rest = help_rows(table.drop_last(), sec);
        let c = table.last();
        if c.help == Some(sec) && c.keys@.len() > 0 {
            rest.push((spec_glyphs(c.keys@[0]@), c.label@))
        } else {
            rest
        }
    }
}

/// The non-empty sections among the first `k`, in dialog order.
pub open spec fn help_sections_upto(table: Seq<Command>, k: int) -> Seq<(Seq<char>, Seq<(Seq<char>, Seq<char>)>)>
    decreases k,
{
    if k <= 0 {
        seq![]
    } else {
        let prev = help_sections_upto(table, k - 1);
        let rows = help_rows(table, help_at(k - 1));
        if rows.len() > 0 {
            prev.push((spec_help_title(help_at(k - 1)), rows))
        } else {
            prev
        }
    }
}

pub open spec fn spec_help_sections(table: Seq<Command>) -> Seq<(Seq<char>, Seq<(Seq<char>, Seq<char>)>)> {
    help_sections_upto(table, 4)
}

pub open spec fn rows_view(v: Seq<(String, &'static str)>) -> Seq<(Seq<char>, Seq<char>)> {
    Seq::new(v.len(), |i: int| (v[i].0@, v[i].1@))
}

pub open spec fn sections_view(v: Seq<(&'static str, Vec<(String, &'static str)>)>) -> Seq<(Seq<char>, Seq<(Seq<char>, Seq<char>)>)> {
    Seq::new(v.len(), |i: int| (v[i].0@, rows_view(v[i].1@)))
}

fn rows_for(table: &[Command], sec: HelpSection) -> (r: Vec<(String, &'static str)>)
    ensures
        rows_view(r@) == help_rows(table@, sec),
{
    let mut out: Vec<(String, &'static str)> = Vec::new();
    let mut i: usize = 0;
    assert(table@.take(0) =~= Seq::<Command>::empty());
    assert(rows_view(out@) =~= Seq::<(Seq<char>, Seq<char>)>::empty());
    while i < table.len()
        invariant
            i <= table@.len(),
            rows_view(out@) == help_rows(table@.take(i as int), sec),
        decreases table@.len() - i,
    {
        let c = table[i];
        assert(table@.take(i + 1).drop_last() =~= table@.take(i as int));
        assert(table@.take(i + 1).last() == c);
        let in_sec = match c.help {
            Some(h) => h == sec,
            None => false,
        };
        if in_sec && c.keys.len() > 0 {
            let g = glyphs(c.keys[0]);
            let ghost before = out@;
            out.push((g, c.label));
            assert(rows_view(out@) =~= rows_view(before).push((g@, c.label@)));
        }
        i += 1;
    }
    assert(table@.take(table@.len() as int) =~= table@);
    out
}

/// The ⌘/ dialog, and the source for the generated shortcut docs. Only
/// the first (canonical) key is listed: aliases bind but do not clutter.
pub fn help_sections(table: &[Command]) -> (r: Vec<(&'static str, Vec<(String, &'static str)>)>)
    ensures
        sections_view(r@) == spec_help_sections(table@),
{
    let mut out: Vec<(&'static str, Vec<(String, &'static str)>)> = Vec::new();
    let mut k: usize = 0;
    assert(sections_view(out@) =~= Seq::<(Seq<char>, Seq<(Seq<char>, Seq<char>)>)>::empty());
    while k < 4
        invariant
            k <= 4,
            sections_view(out@) == help_sections_upto(table@, k as int),
        decreases 4 - k,
    {
        let sec = if k == 0 {
            HelpSection::General
        } else if k == 1 {
            HelpSection::Editor
        } else if k == 2 {
            HelpSection::Preview
        } else {
            HelpSection::Sidebar
        };
        assert(sec == help_at(k as int));
        let rows = rows_for(table, sec);
        if rows.len() > 0 {
            let ghost before = out@;
            let ghost rv = rows_view(rows@);
            out.push((help_title(sec), rows));
            assert(sections_view(out@) =~= sections_view(before).push((spec_help_title(sec), rv)));
        }
        k += 1;
    }
    out
}

/// The menus among the first `k` (in menu-bar order) that list any
/// command, each with its commands.
pub open spec fn groups_upto(table: Seq<Command>, about_in_app_menu: bool, k: int) -> Seq<(Seq<char>, Seq<Command>)>
    decreases k,
{
    if k <= 0 {
        seq![]
    } else {
        let prev = groups_upto(table, about_in_app_menu, k - 1);
        let cmds = spec_items_for(table, menu_at(k - 1), about_in_app_menu);
        if cmds.len() > 0 {
            prev.push((spec_menu_title(menu_at(k - 1)), cmds))
        } else {
            prev
        }
    }
}

pub open spec fn groups_view(v: Seq<(&'static str, Vec<Command>)>) -> Seq<(Seq<char>, Seq<Command>)> {
    Seq::new(v.len(), |i: int| (v[i].0@, v[i].1@))
}

/// The ☰ popover's contents: the same menus, as flat labelled groups.
/// Off macOS there is no global menu bar, so this *is* the menu.
pub fn popover_groups(table: &[Command], about_in_app_menu: bool) -> (r: Vec<(&'static str, Vec<Command>)>)
    ensures
        groups_view(r@) == groups_upto(table@, about_in_app_menu, 7),
{
    let mut out: Vec<(&'static str, Vec<Command>)> = Vec::new();
    let mut k: usize = 0;
    assert(groups_view(out@) =~= Seq::<(Seq<char>, Seq<Command>)>::empty());
    while k < 7
        invariant
            k <= 7,
            groups_view(out@) == groups_upto(table@, about_in_app_menu, k as int),
        decreases 7 - k,
    {
        let id = MENU_ORDER[k];
        assert(id == menu_at(k as int));
        let cmds = items_for(table, id, about_in_app_menu);
        if cmds.len() > 0 {
            let ghost before = out@;
            let ghost cv = cmds@;
            out.push((menu_title(id), cmds));
            assert(groups_view(out@) =~= groups_view(before).push((spec_menu_title(id), cv)));
        }
        k += 1;
    }
    out
}

/// One entry of a menu in the menu bar.
#[derive(Debug, Clone)]
pub enum MenuEntry {
    /// A line between two groups of one menu.
    Separator,
    /// A command, shown by its label.
    Action(Command),
    /// The Open Recent submenu: the recent files, each in its own slot.
    OpenRecent(Vec<String>),
}

/// One menu of the menu bar: its title and its entries.
#[derive(Debug, Clone)]
pub struct MenuLayout {
    pub title: &'static str,
    pub items: Vec<MenuEntry>,
}

/// A menu entry as plain values.
pub enum EntryView {
    Separator,
    Action(Command),
    OpenRecent(Seq<Seq<char>>),
}

pub open spec fn strings_view(v: Seq<String>) -> Seq<Seq<char>> {
    Seq::new(v.len(), |i: int| v[i]@)
}

pub open spec fn entry_view(e: MenuEntry) -> EntryView {
    match e {
        MenuEntry::Separator => EntryView::Separator,
        MenuEntry::Action(c) => EntryView::Action(c),
        MenuEntry::OpenRecent(v) => EntryView::OpenRecent(strings_view(v@)),
    }
}

pub open spec fn entries_view(v: Seq<MenuEntry>) -> Seq<EntryView> {
    Seq::new(v.len(), |i: int| entry_view(v[i]))
}

pub open spec fn layouts_view(v: Seq<MenuLayout>) -> Seq<(Seq<char>, Seq<EntryView>)> {
    Seq::new(v.len(), |i: int| (v[i].title@, entries_view(v[i].items@)))
}

/// The separator group of a command within its menu.
pub open spec fn group_of(c: Command) -> int {
    match c.menu {
        Some((_, g)) => g as int,
        None => 0,
    }
}

/// The Open Recent slots: the first eight recent files.
pub open spec fn recent_slots(recents: Seq<String>) -> Seq<Seq<char>> {
    strings_view(if recents.len() <= 8 {
        recents
    } else {
        recents.take(8)
    })
}

/// The entries for the commands of one menu: a separator wherever the
/// group changes from one command to the next, and the Open Recent
/// submenu right after `open` when there are recent files.
pub open spec fn spec_menu_entries(cmds: Seq<Command>, recents: Seq<Seq<char>>) -> Seq<EntryView>
    decreases cmds.len(),
{
    if cmds.len() == 0 {
        seq![]
    } else {
        let prev = spec_menu_entries(cmds.drop_last(), recents);
        let c = cmds.last();
        let sep = if cmds.len() > 1 && group_of(c) != group_of(cmds[cmds.len() - 2]) {
            seq![EntryView::Separator]
        } else {
            seq![]
        };
        let rec = if c.id@ == "open"@ && recents.len() > 0 {
            seq![EntryView::OpenRecent(recents)]
        } else {
            seq![]
        };
        prev + sep + seq![EntryView::Action(c)] + rec
    }
}

/// The menus among the first `k` (in menu-bar order) that list any
/// command, each with its entries.
pub open spec fn menus_upto(
    table: Seq<Command>,
    recents: Seq<Seq<char>>,
    about_in_app_menu: bool,
    k: int,
) -> Seq<(Seq<char>, Seq<EntryView>)>
    decreases k,
{
    if k <= 0 {
        seq![]
    } else {
        let prev = menus_upto(table, recents, about_in_app_menu, k - 1);
        let cmds = spec_items_for(table, menu_at(k - 1), about_in_app_menu);
        if cmds.len() > 0 {
            prev.push((spec_menu_title(menu_at(k - 1)), spec_menu_entries(cmds, recents)))
        } else {
            prev
        }
    }
}

/// The Open Recent submenu's names: the first eight recent files.
fn recent_items(recents: &[String]) -> (r: Vec<String>)
    ensures
        strings_view(r@) == recent_slots(recents@),
{
    let n = if recents.len() <= 8 {
        recents.len()
    } else {
        8
    };
    let mut out: Vec<String> = Vec::new();
    let mut i: usize = 0;
    while i < n
        invariant
            i <= n <= recents@.len(),
            n == if recents@.len() <= 8 { recents@.len() } else { 8 },
            out@.len() == i,
            forall|k: int| 0 <= k < i ==> (#[trigger] out@[k])@ == recents@[k]@,
        decreases n - i,
    {
        out.push(recents[i].clone());
        i += 1;
    }
    assert(strings_view(out@) =~= recent_slots(recents@));
    out
}

/// The entries of one menu, from its commands.
fn menu_entries(cmds: &Vec<Command>, recents: &[String]) -> (r: Vec<MenuEntry>)
    ensures
        entries_view(r@) == spec_menu_entries(cmds@, recent_slots(recents@)),
{
    let ghost rs = recent_slots(recents@);
    let mut out: Vec<MenuEntry> = Vec::new();
    let mut i: usize = 0;
    assert(cmds@.take(0) =~= Seq::<Command>::empty());
    assert(entries_view(out@) =~= Seq::<EntryView>::empty());
    while i < cmds.len()
        invariant
            i <= cmds@.len(),
            rs == recent_slots(recents@),
            entries_view(out@) == spec_menu_entries(cmds@.take(i as int), rs),
        decreases cmds@.len() - i,
    {
        let c = cmds[i];
        let ghost before = out@;
        let ghost pre = cmds@.take(i as int);
        let ghost now = cmds@.take(i + 1);
        assert(now.drop_last() =~= pre);
        assert(now.last() == c);
        if i > 0 {
            let g = match c.menu {
                Some((_, g)) => g,
                None => 0,
            };
            let p = match cmds[i - 1].menu {
                Some((_, g)) => g,
                None => 0,
            };
            assert(now[now.len() - 2] == cmds@[i - 1]);
            if g != p {
                out.push(MenuEntry::Separator);
            }
        }
        let ghost mid = out@;
        out.push(MenuEntry::Action(c));
        let ghost mid2 = out@;
        let recent_here = str_eq(c.id, "open") && recents.len() > 0;
        if recent_here {
            out.push(MenuEntry::OpenRecent(recent_items(recents)));
        }
        proof {
            assert(rs.len() > 0 <==> recents@.len() > 0);
            let sep = if now.len() > 1 && group_of(c) != group_of(now[now.len() - 2]) {
                seq![EntryView::Separator]
            } else {
                seq![]
            };
            let rec = if c.id@ == "open"@ && rs.len() > 0 {
                seq![EntryView::OpenRecent(rs)]
            } else {
                seq![]
            };
            assert(entries_view(mid) =~= entries_view(before) + sep);
            assert(entries_view(mid2) =~= entries_view(before) + sep + seq![EntryView::Action(c)]);
            assert(entries_view(out@) =~= entries_view(before) + sep + seq![EntryView::Action(c)] + rec);
        }
        i += 1;
    }
    assert(cmds@.take(cmds@.len() as int) =~= cmds@);
    out
}

/// The menu bar: each menu, in menu-bar order, that lists any command,
/// with a separator between groups and Open Recent (filled from
/// `recents`) after the open command. About is a macOS app-menu item
/// there (`about_in_app_menu`), and a Help item elsewhere.
pub fn menus(table: &[Command], recents: &[String], about_in_app_menu: bool) -> (r: Vec<MenuLayout>)
    ensures
        layouts_view(r@) == menus_upto(table@, recent_slots(recents@), about_in_app_menu, 7),
{
    let ghost rs = recent_slots(recents@);
    let mut out: Vec<MenuLayout> = Vec::new();
    let mut k: usize = 0;
    assert(layouts_view(out@) =~= Seq::<(Seq<char>, Seq<EntryView>)>::empty());
    while k < 7
        invariant
            k <= 7,
            rs == recent_slots(recents@),
            layouts_view(out@) == menus_upto(table@, rs, about_in_app_menu, k as int),
        decreases 7 - k,
    {
        let id = MENU_ORDER[k];
        assert(id == menu_at(k as int));
        let cmds = items_for(table, id, about_in_app_menu);
        if cmds.len() > 0 {
            let ghost before = out@;
            let items = menu_entries(&cmds, recents);
            let ghost iv = entries_view(items@);
            out.push(MenuLayout { title: menu_title(id), items });
            assert(layouts_view(out@) =~= layouts_view(before).push((spec_menu_title(id), iv)));
        }
        k += 1;
    }
    out
}

/// The entries of a non-empty menu begin with a command, never end on a
/// separator, and every separator has a command right after it.
proof fn lemma_menu_entries_edges(cmds: Seq<Command>, recents: Seq<Seq<char>>)
    requires
        cmds.len() > 0,
    ensures
        ({
            let es = spec_menu_entries(cmds, recents);
            &&& es.len() > 0
            &&& es[0] is Action
            &&& !(es.last() is Separator)
            &&& forall|i: int| 0 <= i < es.len() && (#[trigger] es[i]) is Separator ==> 0 < i && i + 1 < es.len()
                && es[i + 1] is Action
        }),
    decreases cmds.len(),
{
    let es = spec_menu_entries(cmds, recents);
    let c = cmds.last();
    let sep = if cmds.len() > 1 && group_of(c) != group_of(cmds[cmds.len() - 2]) {
        seq![EntryView::Separator]
    } else {
        seq![]
    };
    let rec = if c.id@ == "open"@ && recents.len() > 0 {
        seq![EntryView::OpenRecent(recents)]
    } else {
        seq![]
    };
    let prev = spec_menu_entries(cmds.drop_last(), recents);
    assert(es == prev + sep + seq![EntryView::Action(c)] + rec);
    if cmds.len() == 1 {
        assert(prev.len() == 0);
        assert(sep.len() == 0);
        assert(es[0] is Action);
    } else {
        lemma_menu_entries_edges(cmds.drop_last(), recents);
        assert(es[0] == prev[0]);
        assert forall|i: int| 0 <= i < es.len() && (#[trigger] es[i]) is Separator implies 0 < i && i + 1
            < es.len() && es[i + 1] is Action by {
            if i < prev.len() {
                assert(es[i] == prev[i]);
                if i + 1 < prev.len() {
                    assert(es[i + 1] == prev[i + 1]);
                }
            } else if i < prev.len() + sep.len() {
                assert(es[i + 1] == EntryView::Action(c));
            } else {
                assert(i == prev.len() + sep.len() || i > prev.len() + sep.len());
            }
        }
    }
}

/// In every menu of the menu bar, separators fall between groups and
/// never at the edges: a menu starts with a command, does not end on a
/// separator, and has a command right after each separator.
pub proof fn lemma_separators_fall_between_groups(table: Seq<Command>, recents: Seq<Seq<char>>, about_in_app_menu: bool, k: int)
    ensures
        forall|m: int| 0 <= m < menus_upto(table, recents, about_in_app_menu, k).len() ==> {
            let es = (#[trigger] menus_upto(table, recents, about_in_app_menu, k)[m]).1;
            &&& es.len() > 0
            &&& es[0] is Action
            &&& !(es.last() is Separator)
            &&& forall|i: int| 0 <= i < es.len() && (#[trigger] es[i]) is Separator ==> 0 < i && i + 1 < es.len()
                && es[i + 1] is Action
        },
    decreases k,
{
    if k > 0 {
        lemma_separators_fall_between_groups(table, recents, about_in_app_menu, k - 1);
        let prev = menus_upto(table, recents, about_in_app_menu, k - 1);
        let cmds = spec_items_for(table, menu_at(k - 1), about_in_app_menu);
        if cmds.len() > 0 {
            lemma_menu_entries_edges(cmds, recents);
            let now = menus_upto(table, recents, about_in_app_menu, k);
            assert forall|m: int| 0 <= m < now.len() implies now[m] == (if m < prev.len() {
                prev[m]
            } else {
                (spec_menu_title(menu_at(k - 1)), spec_menu_entries(cmds, recents))
            }) by {}
        }
    }
}

/// The commands among menu entries, in order.
pub open spec fn actions_of(es: Seq<EntryView>) -> Seq<Command>
    decreases es.len(),
{
    if es.len() == 0 {
        seq![]
    } else {
        let prev = actions_of(es.drop_last());
        match es.last() {
            EntryView::Action(c) => prev.push(c),
            _ => prev,
        }
    }
}

proof fn lemma_actions_of_concat(a: Seq<EntryView>, b: Seq<EntryView>)
    ensures
        actions_of(a + b) == actions_of(a) + actions_of(b),
    decreases b.len(),
{
    if b.len() == 0 {
        assert(a + b =~= a);
        assert(actions_of(a) + actions_of(b) =~= actions_of(a));
    } else {
        lemma_actions_of_concat(a, b.drop_last());
        assert((a + b).drop_last() =~= a + b.drop_last());
        assert((a + b).last() == b.last());
        match b.last() {
            EntryView::Action(c) => {
                assert(actions_of(a) + actions_of(b.drop_last()).push(c) =~= (actions_of(a) + actions_of(
                    b.drop_last(),
                )).push(c));
            },
            _ => {},
        }
    }
}

proof fn lemma_actions_of_entries(cmds: Seq<Command>, recents: Seq<Seq<char>>)
    ensures
        actions_of(spec_menu_entries(cmds, recents)) == cmds,
    decreases cmds.len(),
{
    if cmds.len() > 0 {
        lemma_actions_of_entries(cmds.drop_last(), recents);
        let c = cmds.last();
        let prev = spec_menu_entries(cmds.drop_last(), recents);
        let sep = if cmds.len() > 1 && group_of(c) != group_of(cmds[cmds.len() - 2]) {
            seq![EntryView::Separator]
        } else {
            seq![]
        };
        let rec = if c.id@ == "open"@ && recents.len() > 0 {
            seq![EntryView::OpenRecent(recents)]
        } else {
            seq![]
        };
        lemma_actions_of_concat(prev, sep);
        lemma_actions_of_concat(prev + sep, seq![EntryView::Action(c)]);
        lemma_actions_of_concat(prev + sep + seq![EntryView::Action(c)], rec);
        assert(actions_of(sep) =~= Seq::<Command>::empty()) by {
            if sep.len() == 1 {
                let one = seq![EntryView::Separator];
                assert(sep == one);
                assert(one.drop_last() =~= Seq::<EntryView>::empty());
                assert(actions_of(one.drop_last()) =~= Seq::<Command>::empty());
                assert(one.last() is Separator);
            } else {
                assert(sep =~= Seq::<EntryView>::empty());
            }
        }
        assert(actions_of(rec) =~= Seq::<Command>::empty()) by {
            if rec.len() == 1 {
                let one = seq![EntryView::OpenRecent(recents)];
                assert(rec == one);
                assert(one.drop_last() =~= Seq::<EntryView>::empty());
                assert(actions_of(one.drop_last()) =~= Seq::<Command>::empty());
                assert(one.last() is OpenRecent);
            } else {
                assert(rec =~= Seq::<EntryView>::empty());
            }
        }
        let one = seq![EntryView::Action(c)];
        assert(one.drop_last() =~= Seq::<EntryView>::empty());
        assert(actions_of(one.drop_last()) =~= Seq::<Command>::empty());
        assert(one.last() == EntryView::Action(c));
        assert(actions_of(one) == Seq::<Command>::empty().push(c));
        assert(actions_of(one) =~= seq![c]);
        assert(cmds.drop_last().push(c) =~= cmds);
    }
}

/// The ☰ popover shows exactly what the menu bar shows: the same menus
/// under the same titles, listing the same commands in the same order.
pub proof fn lemma_popover_matches_menu_bar(table: Seq<Command>, recents: Seq<Seq<char>>, about_in_app_menu: bool, k: int)
    ensures
        menus_upto(table, recents, about_in_app_menu, k).len() == groups_upto(table, about_in_app_menu, k).len(),
        forall|m: int| 0 <= m < menus_upto(table, recents, about_in_app_menu, k).len() ==> {
            &&& (#[trigger] menus_upto(table, recents, about_in_app_menu, k)[m]).0 == groups_upto(table, about_in_app_menu, k)[m].0
            &&& actions_of(menus_upto(table, recents, about_in_app_menu, k)[m].1) == groups_upto(table, about_in_app_menu, k)[m].1
        },
    decreases k,
{
    if k > 0 {
        lemma_popover_matches_menu_bar(table, recents, about_in_app_menu, k - 1);
        let cmds = spec_items_for(table, menu_at(k - 1), about_in_app_menu);
        lemma_actions_of_entries(cmds, recents);
        let prev_m = menus_upto(table, recents, about_in_app_menu, k - 1);
        let prev_g = groups_upto(table, about_in_app_menu, k - 1);
        let now_m = menus_upto(table, recents, about_in_app_menu, k);
        let now_g = groups_upto(table, about_in_app_menu, k);
        if cmds.len() > 0 {
            assert forall|m: int| 0 <= m < now_m.len() implies {
                &&& (#[trigger] now_m[m]).0 == now_g[m].0
                &&& actions_of(now_m[m].1) == now_g[m].1
            } by {
                if m < prev_m.len() {
                    assert(now_m[m] == prev_m[m]);
                    assert(now_g[m] == prev_g[m]);
                }
            }
        }
    }
}

/// A keystroke's glyphs as the other platforms' docs read them: ⌘ is
/// Ctrl there.
pub open spec fn docs_glyphs(k: Seq<char>) -> Seq<char>
    decreases k.len(),
{
    if k.len() == 0 {
        seq![]
    } else {
        docs_glyphs(k.drop_last()) + if k.last() == '\u{2318}' {
            seq!['C', 't', 'r', 'l']
        } else {
            seq![k.last()]
        }
    }
}

fn translate_glyphs_for_docs(keys: &str) -> (r: String)
    ensures
        r@ == docs_glyphs(keys@),
{
    let v = chars_of(keys);
    let mut out = String::new();
    let mut i: usize = 0;
    proof {
        reveal_strlit("Ctrl");
        assert("Ctrl"@ =~= seq!['C', 't', 'r', 'l']);
    }
    assert(keys@.take(0) =~= Seq::<char>::empty());
    while i < v.len()
        invariant
            v@ == keys@,
            i <= v@.len(),
            out@ == docs_glyphs(keys@.take(i as int)),
        decreases v@.len() - i,
    {
        assert(keys@.take(i + 1).drop_last() =~= keys@.take(i as int));
        assert(keys@.take(i + 1).last() == v@[i as int]);
        if v[i] == '\u{2318}' {
            proof {
                reveal_strlit("Ctrl");
                assert("Ctrl"@ =~= seq!['C', 't', 'r', 'l']);
            }
            push_str(&mut out, "Ctrl");
        } else {
            push_char(&mut out, v[i]);
        }
        i += 1;
    }
    assert(keys@.take(v@.len() as int) =~= keys@);
    out
}

/// The opening of the shortcut docs: the title and the modifier scheme.
pub open spec fn md_header() -> Seq<char> {
    HEADER@
}

pub open spec fn md_row(r: (Seq<char>, Seq<char>)) -> Seq<char> {
    "| "@ + r.0 + " | "@ + docs_glyphs(r.0) + " | "@ + r.1 + " |\n"@
}

pub open spec fn md_rows(rows: Seq<(Seq<char>, Seq<char>)>) -> Seq<char>
    decreases rows.len(),
{
    if rows.len() == 0 {
        seq![]
    } else {
        md_rows(rows.drop_last()) + md_row(rows.last())
    }
}

pub open spec fn md_section(s: (Seq<char>, Seq<(Seq<char>, Seq<char>)>)) -> Seq<char> {
    "## "@ + s.0 + "\n\n"@ + "| macOS | Windows / Linux | Action |\n"@
        + "| ----- | --------------- | ------ |\n"@ + md_rows(s.1) + "\n"@
}

pub open spec fn md_sections(ss: Seq<(Seq<char>, Seq<(Seq<char>, Seq<char>)>)>) -> Seq<char>
    decreases ss.len(),
{
    if ss.len() == 0 {
        seq![]
    } else {
        md_sections(ss.drop_last()) + md_section(ss.last())
    }
}

/// The shortcut docs page, generated. Both platform columns come from the
/// one macOS-form declaration in the table.
pub fn shortcut_markdown(table: &[Command]) -> (r: String)
    ensures
        r@ == md_header() + md_sections(spec_help_sections(table@)),
{
    let mut out = String::new();
    push_str(&mut out, HEADER);
    let secs = help_sections(table);
    let ghost sv = sections_view(secs@);
    let mut k: usize = 0;
    assert(sv.take(0) =~= Seq::<(Seq<char>, Seq<(Seq<char>, Seq<char>)>)>::empty());
    while k < secs.len()
        invariant
            k <= secs@.len(),
            sv == sections_view(secs@),
            out@ == md_header() + md_sections(sv.take(k as int)),
        decreases secs@.len() - k,
    {
        let title = secs[k].0;
        let rows = &secs[k].1;
        let ghost before = out@;
        let ghost rv = rows_view(rows@);
        push_str(&mut out, "## ");
        push_str(&mut out, title);
        push_str(&mut out, "\n\n");
        push_str(&mut out, "| macOS | Windows / Linux | Action |\n");
        push_str(&mut out, "| ----- | --------------- | ------ |\n");
        let ghost mid = out@;
        let mut j: usize = 0;
        assert(rv.take(0) =~= Seq::<(Seq<char>, Seq<char>)>::empty());
        while j < rows.len()
            invariant
                j <= rows@.len(),
                rv == rows_view(rows@),
                out@ == mid + md_rows(rv.take(j as int)),
            decreases rows@.len() - j,
        {
            let keys = rows[j].0.as_str();
            let label = rows[j].1;
            let other = translate_glyphs_for_docs(keys);
            let ghost at = out@;
            push_str(&mut out, "| ");
            push_str(&mut out, keys);
            push_str(&mut out, " | ");
            push_str(&mut out, other.as_str());
            push_str(&mut out, " | ");
            push_str(&mut out, label);
            push_str(&mut out, " |\n");
            assert(rv.take(j + 1).drop_last() =~= rv.take(j as int));
            assert(rv.take(j + 1).last() == (keys@, label@));
            assert(out@ =~= at + md_row((keys@, label@)));
            j += 1;
        }
        push_str(&mut out, "\n");
        assert(rv.take(rows@.len() as int) =~= rv);
        assert(sv.take(k + 1).drop_last() =~= sv.take(k as int));
        assert(sv.take(k + 1).last() == (title@, rv));
        assert(out@ =~= before + md_section((title@, rv)));
        k += 1;
    }
    assert(sv.take(secs@.len() as int) =~= sv);
    out
}

/// The keys with a glyph of their own.
pub open spec fn named_key(k: Seq<char>) -> bool {
    k == "enter"@ || k == "backspace"@ || k == "delete"@ || k == "escape"@ || k == "tab"@ || k == "left"@
        || k == "right"@ || k == "up"@ || k == "down"@ || k == "pageup"@ || k == "pagedown"@ || k
        == "home"@ || k == "end"@ || k == "-"@
}

/// Named keys never share a glyph: two named keys shown alike are the
/// same key (each arrow, for one, gets its own arrow).
pub proof fn lemma_named_key_glyphs_differ(k1: Seq<char>, k2: Seq<char>)
    requires
        named_key(k1),
        named_key(k2),
        spec_key_glyph(k1) == spec_key_glyph(k2),
    ensures
        k1 == k2,
{
    reveal_strlit("enter");
    reveal_strlit("backspace");
    reveal_strlit("delete");
    reveal_strlit("escape");
    reveal_strlit("tab");
    reveal_strlit("left");
    reveal_strlit("right");
    reveal_strlit("up");
    reveal_strlit("down");
    reveal_strlit("pageup");
    reveal_strlit("pagedown");
    reveal_strlit("home");
    reveal_strlit("end");
    reveal_strlit("-");
    reveal_strlit("\u{23ce}");
    reveal_strlit("\u{232b}");
    reveal_strlit("\u{2326}");
    reveal_strlit("esc");
    reveal_strlit("Tab");
    reveal_strlit("\u{2190}");
    reveal_strlit("\u{2192}");
    reveal_strlit("\u{2191}");
    reveal_strlit("\u{2193}");
    reveal_strlit("PgUp");
    reveal_strlit("PgDn");
    reveal_strlit("Home");
    reveal_strlit("End");
    reveal_strlit("\u{2212}");
    assert("enter"@.len() == 5 && "enter"@[0] == 'e');
    assert("backspace"@.len() == 9 && "backspace"@[0] == 'b');
    assert("delete"@.len() == 6 && "delete"@[0] == 'd');
    assert("escape"@.len() == 6 && "escape"@[0] == 'e');
    assert("tab"@.len() == 3 && "tab"@[0] == 't');
    assert("left"@.len() == 4 && "left"@[0] == 'l');
    assert("right"@.len() == 5 && "right"@[0] == 'r');
    assert("up"@.len() == 2 && "up"@[0] == 'u');
    assert("down"@.len() == 4 && "down"@[0] == 'd');
    assert("pageup"@.len() == 6 && "pageup"@[0] == 'p');
    assert("pagedown"@.len() == 8 && "pagedown"@[0] == 'p');
    assert("home"@.len() == 4 && "home"@[0] == 'h');
    assert("end"@.len() == 3 && "end"@[0] == 'e');
    assert("-"@.len() == 1 && "-"@[0] == '-');
    assert("\u{23ce}"@.len() == 1 && "\u{23ce}"@[0] == '\u{23ce}');
    assert("\u{232b}"@.len() == 1 && "\u{232b}"@[0] == '\u{232b}');
    assert("\u{2326}"@.len() == 1 && "\u{2326}"@[0] == '\u{2326}');
    assert("esc"@.len() == 3 && "esc"@[0] == 'e' && "esc"@[2] == 'c');
    assert("Tab"@.len() == 3 && "Tab"@[0] == 'T' && "Tab"@[2] == 'b');
    assert("\u{2190}"@.len() == 1 && "\u{2190}"@[0] == '\u{2190}');
    assert("\u{2192}"@.len() == 1 && "\u{2192}"@[0] == '\u{2192}');
    assert("\u{2191}"@.len() == 1 && "\u{2191}"@[0] == '\u{2191}');
    assert("\u{2193}"@.len() == 1 && "\u{2193}"@[0] == '\u{2193}');
    assert("PgUp"@.len() == 4 && "PgUp"@[0] == 'P' && "PgUp"@[2] == 'U');
    assert("PgDn"@.len() == 4 && "PgDn"@[0] == 'P' && "PgDn"@[2] == 'D');
    assert("Home"@.len() == 4 && "Home"@[0] == 'H' && "Home"@[2] == 'm');
    assert("End"@.len() == 3 && "End"@[0] == 'E' && "End"@[2] == 'd');
    assert("\u{2212}"@.len() == 1 && "\u{2212}"@[0] == '\u{2212}');
    assert(spec_key_glyph("enter"@) == "\u{23ce}"@);
    assert(spec_key_glyph("backspace"@) == "\u{232b}"@);
    assert(spec_key_glyph("delete"@) == "\u{2326}"@);
    assert(spec_key_glyph("escape"@) == "esc"@);
    assert(spec_key_glyph("tab"@) == "Tab"@);
    assert(spec_key_glyph("left"@) == "\u{2190}"@);
    assert(spec_key_glyph("right"@) == "\u{2192}"@);
    assert(spec_key_glyph("up"@) == "\u{2191}"@);
    assert(spec_key_glyph("down"@) == "\u{2193}"@);
    assert(spec_key_glyph("pageup"@) == "PgUp"@);
    assert(spec_key_glyph("pagedown"@) == "PgDn"@);
    assert(spec_key_glyph("home"@) == "Home"@);
    assert(spec_key_glyph("end"@) == "End"@);
    assert(spec_key_glyph("-"@) == "\u{2212}"@);
}

} // verus!
