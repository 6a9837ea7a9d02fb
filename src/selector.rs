//! The interactive menu as a state machine over key events: the selection
//! moves up and down without wrapping, Enter confirms, Escape cancels.

use vstd::prelude::*;
use vstd::string::StringExecFns;

use crate::entry::BootEntry;

verus! {

/// A key event as the menu sees it.
#[derive(Clone, Copy, Debug, PartialEq, Eq, Structural)]
pub enum MenuKey {
    Up,
    Down,
    Enter,
    Escape,
    Other,
}

/// Firmware scan codes of the keys the menu reacts to.
pub const SCAN_UP: u16 = 0x01;
pub const SCAN_DOWN: u16 = 0x02;
pub const SCAN_ESC: u16 = 0x17;

/// The character a firmware console reports for Enter.
pub const CHAR_CARRIAGE_RETURN: u16 = 0x0D;

pub open spec fn menu_key_spec(scan_code: u16, unicode_char: u16) -> MenuKey {
    if scan_code == SCAN_UP {
        MenuKey::Up
    } else if scan_code == SCAN_DOWN {
        MenuKey::Down
    } else if scan_code == SCAN_ESC {
        MenuKey::Escape
    } else if scan_code == 0 && unicode_char == CHAR_CARRIAGE_RETURN {
        MenuKey::Enter
    } else {
        MenuKey::Other
    }
}

/// Classifies a firmware key event (scan code, character).
pub fn menu_key(scan_code: u16, unicode_char: u16) -> (r: MenuKey)
    ensures
        r == menu_key_spec(scan_code, unicode_char),
{
    if scan_code == SCAN_UP {
        MenuKey::Up
    } else if scan_code == SCAN_DOWN {
        MenuKey::Down
    } else if scan_code == SCAN_ESC {
        MenuKey::Escape
    } else if scan_code == 0 && unicode_char == CHAR_CARRIAGE_RETURN {
        MenuKey::Enter
    } else {
        MenuKey::Other
    }
}

/// Where one key event leaves the menu.
#[derive(Clone, Copy, Debug, PartialEq, Eq, Structural)]
pub enum MenuStep {
    /// Still browsing, with this entry selected.
    Browse(usize),
    /// The entry at this index was chosen.
    Confirm(usize),
    /// The operator cancelled.
    Cancel,
}

pub open spec fn step_spec(len: nat, selected: nat, key: MenuKey) -> MenuStep {
    match key {
        MenuKey::Up => MenuStep::Browse(if selected > 0 { (selected - 1) as usize } else { 0 }),
        MenuKey::Down => MenuStep::Browse(
            if selected + 1 < len { (selected + 1) as usize } else { selected as usize },
        ),
        MenuKey::Enter => MenuStep::Confirm(selected as usize),
        MenuKey::Escape => MenuStep::Cancel,
        MenuKey::Other => MenuStep::Browse(selected as usize),
    }
}

/// The initial selection: none for an empty list, else the first entry.
pub fn menu_start(len: usize) -> (r: Option<usize>)
    ensures
        len == 0 ==> r is None,
        len > 0 ==> r == Some(0usize),
{
    if len == 0 {
        None
    } else {
        Some(0)
    }
}

/// One transition of the menu over `len` entries.
pub fn menu_step(len: usize, selected: usize, key: MenuKey) -> (r: MenuStep)
    requires
        selected < len,
    ensures
        r == step_spec(len as nat, selected as nat, key),
        r matches MenuStep::Browse(i) ==> i < len,
        r matches MenuStep::Confirm(i) ==> i < len,
{
    match key {
        MenuKey::Up => MenuStep::Browse(if selected > 0 { selected - 1 } else { 0 }),
        MenuKey::Down => MenuStep::Browse(if selected + 1 < len { selected + 1 } else { selected }),
        MenuKey::Enter => MenuStep::Confirm(selected),
        MenuKey::Escape => MenuStep::Cancel,
        MenuKey::Other => MenuStep::Browse(selected),
    }
}

/// How a run of the menu over a sequence of key events ends.
#[derive(Clone, Copy, Debug, PartialEq, Eq, Structural)]
pub enum MenuOutcome {
    /// The list was empty: no key was read.
    NoEntries,
    /// The entry at this index was chosen.
    Confirmed(usize),
    Cancelled,
    /// The keys ran out while browsing at this index.
    Waiting(usize),
}

/// Outcome and number of keys read when the menu, at `selected`, is fed `keys`.
pub open spec fn run_from(len: nat, selected: nat, keys: Seq<MenuKey>) -> (MenuOutcome, nat)
    decreases keys.len(),
{
    if keys.len() == 0 {
        (MenuOutcome::Waiting(selected as usize), 0)
    } else {
        match step_spec(len, selected, keys[0]) {
            MenuStep::Confirm(i) => (MenuOutcome::Confirmed(i), 1),
            MenuStep::Cancel => (MenuOutcome::Cancelled, 1),
            MenuStep::Browse(i) => {
                let rest = run_from(len, i as nat, keys.drop_first());
                (rest.0, rest.1 + 1)
            },
        }
    }
}

/// Outcome of a whole session over `len` entries fed `keys`.
pub open spec fn run_spec(len: nat, keys: Seq<MenuKey>) -> (MenuOutcome, nat) {
    if len == 0 {
        (MenuOutcome::NoEntries, 0)
    } else {
        run_from(len, 0, keys)
    }
}

/// Runs the menu over `len` entries on a sequence of key events, reading
/// keys until one ends the session; returns the outcome and how many keys
/// were read.
pub fn run_menu(len: usize, keys: &[MenuKey]) -> (r: (MenuOutcome, usize))
    ensures
        (r.0, r.1 as nat) == run_spec(len as nat, keys@),
        len == 0 ==> r.0 == MenuOutcome::NoEntries && r.1 == 0,
{
    let mut selected = match menu_start(len) {
        None => return (MenuOutcome::NoEntries, 0),
        Some(s) => s,
    };
    let mut k: usize = 0;
    assert(keys@.skip(0) =~= keys@);
    while k < keys.len()
        invariant
            len > 0,
            selected < len,
            k <= keys@.len(),
            run_spec(len as nat, keys@) == ({
                let rest = run_from(len as nat, selected as nat, keys@.skip(k as int));
                (rest.0, (rest.1 + k) as nat)
            }),
        decreases keys@.len() - k,
    {
        let ghost tail = keys@.skip(k as int);
        assert(tail[0] == keys@[k as int]);
        assert(tail.drop_first() =~= keys@.skip(k + 1));
        match menu_step(len, selected, keys[k]) {
            MenuStep::Confirm(i) => return (MenuOutcome::Confirmed(i), k + 1),
            MenuStep::Cancel => return (MenuOutcome::Cancelled, k + 1),
            MenuStep::Browse(i) => {
                selected = i;
            },
        }
        k = k + 1;
    }
    (MenuOutcome::Waiting(selected), k)
}

/// An empty entry list ends the session at once, before any key is read.
pub proof fn empty_menu_reads_no_key(keys: Seq<MenuKey>)
    ensures
        run_spec(0, keys) == (MenuOutcome::NoEntries, 0nat),
{
}

/// The text of one entry's menu lines.
pub open spec fn entry_lines(title: Seq<char>, version: Option<Seq<char>>, options: Option<
    Seq<char>,
>, selected: bool) -> Seq<Seq<char>> {
    if selected {
        let head = seq!['>', ' '] + title + match version {
            Some(v) => seq![' ', '('] + v + seq![')'],
            None => Seq::empty(),
        };
        match options {
            Some(o) => seq![head, seq![' ', ' ', ' ', ' '] + o],
            None => seq![head],
        }
    } else {
        seq![seq![' ', ' '] + title]
    }
}

/// The menu's lines for entries `0..n`, the one at `selected` marked.
pub open spec fn menu_text(entries: Seq<BootEntry>, n: int, selected: int) -> Seq<Seq<char>>
    decreases n,
{
    if n <= 0 {
        Seq::empty()
    } else {
        let e = entries[n - 1];
        menu_text(entries, n - 1, selected) + entry_lines(
            e.title@,
            e@.version,
            e@.options,
            n - 1 == selected,
        )
    }
}

fn text_of(chars: &str) -> (r: String)
    ensures
        r@ == chars@,
{
    String::from_str(chars)
}

/// The lines of the menu: each entry's title, the selected one marked and
/// followed by its version and options when present.
pub fn menu_lines(entries: &Vec<BootEntry>, selected: usize) -> (r: Vec<String>)
    ensures
        r@.len() == menu_text(entries@, entries@.len() as int, selected as int).len(),
        forall|i: int|
            0 <= i < r@.len() ==> (#[trigger] r@[i])@ == menu_text(
                entries@,
                entries@.len() as int,
                selected as int,
            )[i],
{
    let mut out: Vec<String> = Vec::new();
    let mut i: usize = 0;
    while i < entries.len()
        invariant
            i <= entries@.len(),
            out@.len() == menu_text(entries@, i as int, selected as int).len(),
            forall|k: int|
                0 <= k < out@.len() ==> (#[trigger] out@[k])@ == menu_text(
                    entries@,
                    i as int,
                    selected as int,
                )[k],
        decreases entries@.len() - i,
    {
        proof {
            reveal_strlit("> ");
            reveal_strlit(" (");
            reveal_strlit(")");
            reveal_strlit("    ");
            reveal_strlit("  ");
            assert("> "@ =~= seq!['>', ' ']);
            assert(" ("@ =~= seq![' ', '(']);
            assert(")"@ =~= seq![')']);
            assert("    "@ =~= seq![' ', ' ', ' ', ' ']);
            assert("  "@ =~= seq![' ', ' ']);
        }
        let e = &entries[i];
        let ghost want = entry_lines(e.title@, e@.version, e@.options, i == selected);
        let ghost before = out@;
        if i == selected {
            let mut head = text_of("> ");
            head.append(e.title.as_str());
            match &e.version {
                Some(v) => {
                    head.append(" (");
                    head.append(v.as_str());
                    head.append(")");
                },
                None => {},
            }
            assert(head@ =~= want[0]);
            out.push(head);
            match &e.options {
                Some(o) => {
                    let mut line = text_of("    ");
                    line.append(o.as_str());
                    assert(line@ =~= want[1]);
                    out.push(line);
                },
                None => {},
            }
        } else {
            let mut line = text_of("  ");
            line.append(e.title.as_str());
            assert(line@ =~= want[0]);
            out.push(line);
        }
        assert forall|k: int| 0 <= k < out@.len() implies (#[trigger] out@[k])@ == menu_text(
            entries@,
            i + 1,
            selected as int,
        )[k] by {
            if k < before.len() {
                assert(out@[k] == before[k]);
            }
        }
        i = i + 1;
    }
    out
}

} // verus!
