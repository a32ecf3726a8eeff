use vstd::prelude::*;

use crate::model::{file_views, FileEntryView, Mount, MountView};
use crate::text::{decimal, decimal_text, join, owned};
use crate::tray::{
    bytes_text, empty_list_note_text, file_label, file_label_text, format_bytes, largest_files_note,
    short_time, short_time_text, DiskTray, State,
};

verus! {

broadcast use vstd::string::group_string_axioms;

/// The project's home page.
pub const REPO_URL: &'static str = "https://github.com/maximofn/disk_monitor";

/// Where to support the project.
pub const COFFEE_URL: &'static str = "https://www.buymeacoffee.com/maximofn";

/// What activating a menu entry denotes.
pub enum MenuActionView {
    OpenUrl(Seq<char>),
    Quit,
    OpenInFileManager(Seq<char>),
    MoveToTrash(Seq<char>, Seq<char>, Seq<char>),
    Rescan(Seq<char>),
}

/// What a menu entry denotes.
pub enum MenuEntryView {
    Note(Seq<char>),
    Separator,
    MountMenu(nat),
    LargestFilesMenu,
    Action(Seq<char>, MenuActionView),
}

/// What activating a menu entry does.
#[derive(Clone, Debug, PartialEq, Eq)]
pub enum MenuAction {
    /// Open the address in the desktop's browser.
    OpenUrl(String),
    /// End the indicator.
    Quit,
    /// Show the file in a file manager.
    OpenInFileManager(String),
    /// Ask, then move the file to the trash and have its mount rescanned.
    MoveToTrash { path: String, size_text: String, mount_point: String },
    /// Have the mount rescanned.
    Rescan { mount_point: String },
}

/// One entry of a menu.
#[derive(Clone, Debug, PartialEq, Eq)]
pub enum MenuEntry {
    /// A line of text that cannot be activated.
    Note(String),
    Separator,
    /// The submenu of the mount at this position of the snapshot.
    MountMenu(usize),
    /// The largest-files submenu of the mount at hand.
    LargestFilesMenu,
    /// An entry that does something.
    Action { label: String, action: MenuAction },
}

impl View for MenuAction {
    type V = MenuActionView;

    open spec fn view(&self) -> MenuActionView {
        match self {
            MenuAction::OpenUrl(u) => MenuActionView::OpenUrl(u@),
            MenuAction::Quit => MenuActionView::Quit,
            MenuAction::OpenInFileManager(p) => MenuActionView::OpenInFileManager(p@),
            MenuAction::MoveToTrash { path, size_text, mount_point } => MenuActionView::MoveToTrash(
                path@,
                size_text@,
                mount_point@,
            ),
            MenuAction::Rescan { mount_point } => MenuActionView::Rescan(mount_point@),
        }
    }
}

impl View for MenuEntry {
    type V = MenuEntryView;

    open spec fn view(&self) -> MenuEntryView {
        match self {
            MenuEntry::Note(t) => MenuEntryView::Note(t@),
            MenuEntry::Separator => MenuEntryView::Separator,
            MenuEntry::MountMenu(i) => MenuEntryView::MountMenu(*i as nat),
            MenuEntry::LargestFilesMenu => MenuEntryView::LargestFilesMenu,
            MenuEntry::Action { label, action } => MenuEntryView::Action(label@, action@),
        }
    }
}

/// The views of a list of menu entries.
pub open spec fn entry_views(v: Seq<MenuEntry>) -> Seq<MenuEntryView> {
    v.map_values(|e: MenuEntry| e@)
}

// ---------------------------------------------------------------------
// The main menu
// ---------------------------------------------------------------------

/// The entries that every menu ends with.
pub open spec fn menu_footer() -> Seq<MenuEntryView> {
    seq![
        MenuEntryView::Action("Repository"@, MenuActionView::OpenUrl(REPO_URL@)),
        MenuEntryView::Action("Buy me a coffee"@, MenuActionView::OpenUrl(COFFEE_URL@)),
        MenuEntryView::Separator,
        MenuEntryView::Action("Quit"@, MenuActionView::Quit),
    ]
}

/// The main menu for an indicator talking to `url` in `state`: while
/// connecting, a note saying so; when offline, the error and the backend;
/// when connected, one submenu per mount, the backend and the time of the
/// snapshot. The footer follows.
pub open spec fn main_menu_entries(url: Seq<char>, state: State) -> Seq<MenuEntryView> {
    let head = match state {
        State::Connecting => seq![
            MenuEntryView::Note("Connecting to "@ + url + "\u{2026}"@),
            MenuEntryView::Separator,
        ],
        State::Disconnected(err) => seq![
            MenuEntryView::Note("Backend offline: "@ + err@),
            MenuEntryView::Note("Backend: "@ + url),
            MenuEntryView::Separator,
        ],
        State::Connected(snap) => Seq::new(
            snap.mounts@.len(),
            |i: int| MenuEntryView::MountMenu(i as nat),
        ) + seq![
            MenuEntryView::Separator,
            MenuEntryView::Note("Backend: "@ + url),
            MenuEntryView::Note("Updated: "@ + short_time_text(snap.timestamp@)),
            MenuEntryView::Separator,
        ],
    };
    head + menu_footer()
}

/// Appends `e` to `v`.
fn push_entry(v: &mut Vec<MenuEntry>, e: MenuEntry)
    ensures
        entry_views(final(v)@) == entry_views(old(v)@).push(e@),
{
    let ghost before = v@;
    v.push(e);
    assert(entry_views(v@) =~= entry_views(before).push(e@));
}

/// The main menu of the indicator.
pub fn main_menu(tray: &DiskTray) -> (r: Vec<MenuEntry>)
    ensures
        entry_views(r@) == main_menu_entries(tray.backend(), tray.status()),
{
    let url = tray.backend_url();
    let mut items: Vec<MenuEntry> = Vec::new();
    let ghost head: Seq<MenuEntryView>;
    match tray.state() {
        State::Connecting => {
            let t = join(join(owned("Connecting to "), url), "\u{2026}");
            push_entry(&mut items, MenuEntry::Note(t));
            push_entry(&mut items, MenuEntry::Separator);
            proof {
                head = entry_views(items@);
            }
        },
        State::Disconnected(err) => {
            push_entry(&mut items, MenuEntry::Note(join(owned("Backend offline: "), err.as_str())));
            push_entry(&mut items, MenuEntry::Note(join(owned("Backend: "), url)));
            push_entry(&mut items, MenuEntry::Separator);
            proof {
                head = entry_views(items@);
            }
        },
        State::Connected(snap) => {
            let n = snap.mounts.len();
            let mut i: usize = 0;
            while i < n
                invariant
                    i <= n,
                    n == snap.mounts@.len(),
                    entry_views(items@) == Seq::new(
                        i as nat,
                        |k: int| MenuEntryView::MountMenu(k as nat),
                    ),
                decreases n - i,
            {
                push_entry(&mut items, MenuEntry::MountMenu(i));
                assert(entry_views(items@) =~= Seq::new(
                    (i + 1) as nat,
                    |k: int| MenuEntryView::MountMenu(k as nat),
                ));
                i = i + 1;
            }
            push_entry(&mut items, MenuEntry::Separator);
            push_entry(&mut items, MenuEntry::Note(join(owned("Backend: "), url)));
            let when = short_time(snap.timestamp.as_str());
            push_entry(&mut items, MenuEntry::Note(join(owned("Updated: "), when.as_str())));
            push_entry(&mut items, MenuEntry::Separator);
            proof {
                head = entry_views(items@);
            }
        },
    }
    push_entry(
        &mut items,
        MenuEntry::Action { label: owned("Repository"), action: MenuAction::OpenUrl(owned(REPO_URL)) },
    );
    push_entry(
        &mut items,
        MenuEntry::Action {
            label: owned("Buy me a coffee"),
            action: MenuAction::OpenUrl(owned(COFFEE_URL)),
        },
    );
    push_entry(&mut items, MenuEntry::Separator);
    push_entry(&mut items, MenuEntry::Action { label: owned("Quit"), action: MenuAction::Quit });
    assert(entry_views(items@) =~= head + menu_footer());
    items
}

// ---------------------------------------------------------------------
// A mount's submenu
// ---------------------------------------------------------------------

/// The label of a mount's submenu: its mount point and, in brackets, its
/// filesystem type.
pub open spec fn mount_menu_label_text(m: MountView) -> Seq<char> {
    m.mount_point + " ("@ + m.fs_type + ")"@
}

/// A mount's submenu: its device, used space with the percentage given,
/// free and total space, and its largest-files submenu.
pub open spec fn mount_menu_entries(m: MountView, used_percent: Seq<char>) -> Seq<MenuEntryView> {
    seq![
        MenuEntryView::Note("Device: "@ + m.device),
        MenuEntryView::Note(
            "Used: "@ + bytes_text(m.usage.used_bytes as nat) + " ("@ + used_percent + "%)"@,
        ),
        MenuEntryView::Note("Free: "@ + bytes_text(m.usage.free_bytes as nat)),
        MenuEntryView::Note("Total: "@ + bytes_text(m.usage.total_bytes as nat)),
        MenuEntryView::Separator,
        MenuEntryView::LargestFilesMenu,
    ]
}

/// The label of a mount's submenu, as in "/ (ext4)".
pub fn mount_menu_label(m: &Mount) -> (r: String)
    ensures
        r@ == mount_menu_label_text(m@),
{
    join(join(join(owned(m.mount_point.as_str()), " ("), m.fs_type.as_str()), ")")
}

/// A mount's submenu; `used_percent` is the used share of the space,
/// already written as a whole percentage.
pub fn mount_menu(m: &Mount, used_percent: &str) -> (r: Vec<MenuEntry>)
    ensures
        entry_views(r@) == mount_menu_entries(m@, used_percent@),
{
    let mut items: Vec<MenuEntry> = Vec::new();
    push_entry(&mut items, MenuEntry::Note(join(owned("Device: "), m.device.as_str())));
    let used = join(owned("Used: "), format_bytes(m.usage.used_bytes).as_str());
    let used = join(join(join(used, " ("), used_percent), "%)");
    push_entry(&mut items, MenuEntry::Note(used));
    push_entry(
        &mut items,
        MenuEntry::Note(join(owned("Free: "), format_bytes(m.usage.free_bytes).as_str())),
    );
    push_entry(
        &mut items,
        MenuEntry::Note(join(owned("Total: "), format_bytes(m.usage.total_bytes).as_str())),
    );
    push_entry(&mut items, MenuEntry::Separator);
    push_entry(&mut items, MenuEntry::LargestFilesMenu);
    assert(entry_views(items@) =~= mount_menu_entries(m@, used_percent@));
    items
}

// ---------------------------------------------------------------------
// A mount's largest files
// ---------------------------------------------------------------------

/// The three entries of one file: its label, and the actions to show it
/// and to trash it.
pub open spec fn file_entries(f: FileEntryView, mount_point: Seq<char>) -> Seq<MenuEntryView> {
    seq![
        MenuEntryView::Note(file_label_text(f)),
        MenuEntryView::Action(
            "      \u{21b3} Open in file manager"@,
            MenuActionView::OpenInFileManager(f.path),
        ),
        MenuEntryView::Action(
            "      \u{21b3} Move to trash\u{2026}"@,
            MenuActionView::MoveToTrash(f.path, bytes_text(f.size_bytes as nat), mount_point),
        ),
    ]
}

/// The entries of the files, with a separator between two files.
pub open spec fn files_block(files: Seq<FileEntryView>, mount_point: Seq<char>) -> Seq<MenuEntryView>
    decreases files.len(),
{
    if files.len() == 0 {
        Seq::empty()
    } else if files.len() == 1 {
        file_entries(files[0], mount_point)
    } else {
        files_block(files.drop_last(), mount_point) + seq![MenuEntryView::Separator]
            + file_entries(files.last(), mount_point)
    }
}

proof fn lemma_files_block_len(files: Seq<FileEntryView>, mp: Seq<char>)
    ensures
        files_block(files, mp).len() == (if files.len() == 0 {
            0
        } else {
            4 * files.len() - 1
        }),
    decreases files.len(),
{
    if files.len() > 1 {
        lemma_files_block_len(files.drop_last(), mp);
    }
}

/// The largest-files menu is flat: file `i` takes the entries `4 i` to
/// `4 i + 2` (its label, then the actions to show it and to trash it), and
/// a separator stands before every file but the first.
pub proof fn law_flat_file_layout(files: Seq<FileEntryView>, mp: Seq<char>, i: int)
    requires
        0 <= i < files.len(),
    ensures
        files_block(files, mp).len() == 4 * files.len() - 1,
        files_block(files, mp)[4 * i] == MenuEntryView::Note(file_label_text(files[i])),
        files_block(files, mp)[4 * i + 1] == MenuEntryView::Action(
            "      \u{21b3} Open in file manager"@,
            MenuActionView::OpenInFileManager(files[i].path),
        ),
        files_block(files, mp)[4 * i + 2] == MenuEntryView::Action(
            "      \u{21b3} Move to trash\u{2026}"@,
            MenuActionView::MoveToTrash(files[i].path, bytes_text(files[i].size_bytes as nat), mp),
        ),
        i > 0 ==> files_block(files, mp)[4 * i - 1] == MenuEntryView::Separator,
    decreases files.len(),
{
    lemma_files_block_len(files, mp);
    let n = files.len();
    if n > 1 {
        let before = files.drop_last();
        lemma_files_block_len(before, mp);
        let whole = files_block(before, mp) + seq![MenuEntryView::Separator] + file_entries(
            files.last(),
            mp,
        );
        assert(files_block(files, mp) == whole);
        if i < n - 1 {
            law_flat_file_layout(before, mp, i);
            assert(before[i] == files[i]);
            if i > 0 {
                assert(whole[4 * i - 1] == files_block(before, mp)[4 * i - 1]);
            }
            assert(whole[4 * i] == files_block(before, mp)[4 * i]);
            assert(whole[4 * i + 1] == files_block(before, mp)[4 * i + 1]);
            assert(whole[4 * i + 2] == files_block(before, mp)[4 * i + 2]);
        } else {
            assert(whole[4 * i - 1] == MenuEntryView::Separator);
            assert(whole[4 * i] == file_entries(files.last(), mp)[0]);
            assert(whole[4 * i + 1] == file_entries(files.last(), mp)[1]);
            assert(whole[4 * i + 2] == file_entries(files.last(), mp)[2]);
        }
    }
}

/// A mount's largest-files submenu: the note for an empty list; otherwise
/// the files, a separator and the action to rescan the mount. The menu is
/// flat, as the panel does not show menus nested more than two deep.
pub open spec fn largest_files_entries(m: MountView) -> Seq<MenuEntryView> {
    if m.largest_files.len() == 0 {
        seq![MenuEntryView::Note(empty_list_note_text(m.largest_files_scanned_at is Some))]
    } else {
        files_block(m.largest_files, m.mount_point) + seq![
            MenuEntryView::Separator,
            MenuEntryView::Action("Rescan now"@, MenuActionView::Rescan(m.mount_point)),
        ]
    }
}

/// A mount's largest-files submenu acts on that mount: with files listed,
/// each file's entries are its label and the actions to show it and to move
/// it to the trash (naming the mount's own mount point), and the menu ends
/// with a separator and "Rescan now" for the mount itself; with none, it is
/// one note.
pub proof fn law_largest_files_menu_acts_on_its_mount(m: MountView)
    ensures
        m.largest_files.len() > 0 ==> {
            let e = largest_files_entries(m);
            &&& e.len() == 4 * m.largest_files.len() + 1
            &&& e[e.len() - 2] == MenuEntryView::Separator
            &&& e[e.len() - 1] == MenuEntryView::Action(
                "Rescan now"@,
                MenuActionView::Rescan(m.mount_point),
            )
            &&& forall|i: int|
                0 <= i < m.largest_files.len() ==> #[trigger] e[4 * i + 2] == MenuEntryView::Action(
                    "      \u{21b3} Move to trash\u{2026}"@,
                    MenuActionView::MoveToTrash(
                        m.largest_files[i].path,
                        bytes_text(m.largest_files[i].size_bytes as nat),
                        m.mount_point,
                    ),
                )
            &&& forall|i: int|
                0 <= i < m.largest_files.len() ==> #[trigger] e[4 * i + 1] == MenuEntryView::Action(
                    "      \u{21b3} Open in file manager"@,
                    MenuActionView::OpenInFileManager(m.largest_files[i].path),
                )
        },
        m.largest_files.len() == 0 ==> largest_files_entries(m).len() == 1
            && largest_files_entries(m)[0] is Note,
{
    let files = m.largest_files;
    if files.len() > 0 {
        let mp = m.mount_point;
        let e = largest_files_entries(m);
        lemma_files_block_len(files, mp);
        let block = files_block(files, mp);
        assert(e == block + seq![
            MenuEntryView::Separator,
            MenuEntryView::Action("Rescan now"@, MenuActionView::Rescan(mp)),
        ]);
        assert(e[e.len() - 2] == MenuEntryView::Separator);
        assert forall|i: int| 0 <= i < files.len() implies #[trigger] e[4 * i + 2]
            == MenuEntryView::Action(
            "      \u{21b3} Move to trash\u{2026}"@,
            MenuActionView::MoveToTrash(files[i].path, bytes_text(files[i].size_bytes as nat), mp),
        ) by {
            law_flat_file_layout(files, mp, i);
            assert(e[4 * i + 2] == block[4 * i + 2]);
        }
        assert forall|i: int| 0 <= i < files.len() implies #[trigger] e[4 * i + 1]
            == MenuEntryView::Action(
            "      \u{21b3} Open in file manager"@,
            MenuActionView::OpenInFileManager(files[i].path),
        ) by {
            law_flat_file_layout(files, mp, i);
            assert(e[4 * i + 1] == block[4 * i + 1]);
        }
    }
}

/// A mount's largest-files submenu.
pub fn largest_files_menu(m: &Mount) -> (r: Vec<MenuEntry>)
    ensures
        entry_views(r@) == largest_files_entries(m@),
{
    let mut items: Vec<MenuEntry> = Vec::new();
    if let Some(note) = largest_files_note(m) {
        push_entry(&mut items, MenuEntry::Note(note));
        return items;
    }
    let ghost fv = file_views(m.largest_files@);
    let ghost mp = m.mount_point@;
    let n = m.largest_files.len();
    let mut i: usize = 0;
    while i < n
        invariant
            i <= n,
            n == m.largest_files@.len(),
            fv == file_views(m.largest_files@),
            mp == m.mount_point@,
            entry_views(items@) == files_block(fv.take(i as int), mp),
        decreases n - i,
    {
        let f = &m.largest_files[i];
        let ghost before = entry_views(items@);
        if i > 0 {
            push_entry(&mut items, MenuEntry::Separator);
        }
        push_entry(&mut items, MenuEntry::Note(file_label(f)));
        push_entry(
            &mut items,
            MenuEntry::Action {
                label: owned("      \u{21b3} Open in file manager"),
                action: MenuAction::OpenInFileManager(f.path.clone()),
            },
        );
        push_entry(
            &mut items,
            MenuEntry::Action {
                label: owned("      \u{21b3} Move to trash\u{2026}"),
                action: MenuAction::MoveToTrash {
                    path: f.path.clone(),
                    size_text: format_bytes(f.size_bytes),
                    mount_point: m.mount_point.clone(),
                },
            },
        );
        proof {
            let t = fv.take(i + 1);
            assert(t.drop_last() =~= fv.take(i as int));
            assert(t.last() == f@);
            if i == 0 {
                assert(entry_views(items@) =~= file_entries(f@, mp));
                assert(t =~= seq![f@]);
            } else {
                assert(entry_views(items@) =~= before + seq![MenuEntryView::Separator]
                    + file_entries(f@, mp));
            }
        }
        i = i + 1;
    }
    let ghost body = entry_views(items@);
    push_entry(&mut items, MenuEntry::Separator);
    push_entry(
        &mut items,
        MenuEntry::Action {
            label: owned("Rescan now"),
            action: MenuAction::Rescan { mount_point: m.mount_point.clone() },
        },
    );
    assert(fv.take(n as int) =~= fv);
    assert(entry_views(items@) =~= body + seq![
        MenuEntryView::Separator,
        MenuEntryView::Action("Rescan now"@, MenuActionView::Rescan(mp)),
    ]);
    items
}

// ---------------------------------------------------------------------
// The tooltip and the trash prompt
// ---------------------------------------------------------------------

/// Lines joined with newlines between them.
pub open spec fn joined_lines(ls: Seq<Seq<char>>) -> Seq<char>
    decreases ls.len(),
{
    if ls.len() == 0 {
        Seq::empty()
    } else if ls.len() == 1 {
        ls[0]
    } else {
        joined_lines(ls.drop_last()) + seq!['\n'] + ls.last()
    }
}

/// The tooltip line of a mount: its mount point, type, used and total
/// space, and the used percentage given.
pub open spec fn tool_tip_line(m: MountView, used_percent: Seq<char>) -> Seq<char> {
    m.mount_point + " ("@ + m.fs_type + ") \u{2014} "@ + bytes_text(m.usage.used_bytes as nat)
        + "/"@ + bytes_text(m.usage.total_bytes as nat) + " ("@ + used_percent + "%)"@
}

/// The text of the tooltip: where the indicator is connecting to, why the
/// backend is offline, or a count of the mounts and one line for each,
/// with the percentages given in the same order.
pub open spec fn tool_tip_text(url: Seq<char>, state: State, percents: Seq<Seq<char>>) -> Seq<char> {
    match state {
        State::Connecting => "Connecting to "@ + url,
        State::Disconnected(err) => "Backend offline: "@ + err@,
        State::Connected(snap) => decimal(snap.mounts@.len()) + " mount(s)"@ + seq!['\n']
            + joined_lines(
            Seq::new(
                snap.mounts@.len(),
                |i: int| tool_tip_line(snap.mounts@[i]@, percents[i]),
            ),
        ),
    }
}

/// The text of the indicator's tooltip. `used_percents` gives, for each
/// mount of the snapshot in order, its used share as a whole percentage.
pub fn tool_tip_description(tray: &DiskTray, used_percents: &Vec<String>) -> (r: String)
    requires
        tray.status() matches State::Connected(snap) ==> used_percents@.len()
            == snap.mounts@.len(),
    ensures
        r@ == tool_tip_text(
            tray.backend(),
            tray.status(),
            used_percents@.map_values(|t: String| t@),
        ),
{
    match tray.state() {
        State::Connecting => join(owned("Connecting to "), tray.backend_url()),
        State::Disconnected(err) => join(owned("Backend offline: "), err.as_str()),
        State::Connected(snap) => {
            let n = snap.mounts.len();
            let ghost pv = used_percents@.map_values(|t: String| t@);
            let ghost lines = Seq::new(
                n as nat,
                |i: int| tool_tip_line(snap.mounts@[i]@, pv[i]),
            );
            let mut body = String::new();
            let mut i: usize = 0;
            while i < n
                invariant
                    i <= n,
                    n == snap.mounts@.len(),
                    n == used_percents@.len(),
                    pv == used_percents@.map_values(|t: String| t@),
                    lines == Seq::new(n as nat, |k: int| tool_tip_line(snap.mounts@[k]@, pv[k])),
                    body@ == joined_lines(lines.take(i as int)),
                decreases n - i,
            {
                let m = &snap.mounts[i];
                let line = join(join(join(owned(m.mount_point.as_str()), " ("), m.fs_type.as_str()), ") \u{2014} ");
                let line = join(join(join(line, format_bytes(m.usage.used_bytes).as_str()), "/"), format_bytes(m.usage.total_bytes).as_str());
                let line = join(join(join(line, " ("), used_percents[i].as_str()), "%)");
                proof {
                    let t = lines.take(i + 1);
                    assert(t.drop_last() =~= lines.take(i as int));
                    assert(line@ == lines[i as int]);
                }
                if i > 0 {
                    body = join(body, "\n");
                }
                proof {
                    reveal_strlit("\n");
                }
                body = join(body, line.as_str());
                proof {
                    let t = lines.take(i + 1);
                    if i == 0 {
                        assert(body@ =~= line@);
                    } else {
                        assert(body@ =~= joined_lines(lines.take(i as int)) + seq!['\n'] + line@);
                    }
                }
                i = i + 1;
            }
            assert(lines.take(n as int) =~= lines);
            let head = join(decimal_text(n as u64), " mount(s)");
            let head = join(head, "\n");
            let r = join(head, body.as_str());
            proof {
                reveal_strlit("\n");
            }
            assert(r@ =~= tool_tip_text(tray.backend(), tray.status(), pv));
            r
        },
    }
}

/// The question put before a file is moved to the trash.
pub open spec fn trash_prompt_text(size_text: Seq<char>, path: Seq<char>) -> Seq<char> {
    "Move this file to the trash?\n\n<b>"@ + size_text + "</b>\n"@ + path
        + "\n\nIt will go to your home trash and can be restored from GNOME Files."@
}

/// The question put before a file is moved to the trash.
pub fn trash_prompt(size_text: &str, path: &str) -> (r: String)
    ensures
        r@ == trash_prompt_text(size_text@, path@),
{
    let s = join(owned("Move this file to the trash?\n\n<b>"), size_text);
    let s = join(join(s, "</b>\n"), path);
    join(s, "\n\nIt will go to your home trash and can be restored from GNOME Files.")
}

} // verus!
