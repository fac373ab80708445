//! The boot loader's decisions: the pre-OS menu, which target to boot and
//! how, the fallback candidates to try in order, and the boot state handed
//! to the system.

use vstd::prelude::*;
use crate::attempt::BootAttemptMarker;
use crate::boot_target::{BootError, BootTarget, BootTargetView, same_target, same_target_spec};
use crate::catalog::{BootCatalog, first_match, opt_target_view, target_matches_spec, views};
use crate::discovery::BootStateConfig;
use crate::handoff::{BootMode, BootState};
use crate::text::{chars_of, is_ws, char_is_ws, string_from_chars, string_push};

verus! {

/// What the user (or the default path) asked for.
#[derive(Debug, Clone, Copy, PartialEq, Eq, Structural)]
pub enum BootMenuAction {
    Continue,
    SystemImage,
    Recovery,
    Factory,
    ExternalBoot,
    VerboseBoot,
}

/// An action and the target it refers to.
#[derive(Debug, Clone, Copy, PartialEq, Eq, Structural)]
pub struct BootSelection {
    pub action: BootMenuAction,
    pub target_index: usize,
}

/// One line of the boot menu.
#[derive(Debug, Clone, Copy, PartialEq, Eq, Structural)]
pub enum MenuEntry {
    Continue,
    SystemImage(usize),
    Recovery,
    Factory,
    ExternalBoot,
    VerboseBoot,
}

/// The menu for `n` targets: continue, one line per target, then
/// recovery, factory, external boot and verbose boot.
pub open spec fn menu_entries_spec(n: nat) -> Seq<MenuEntry> {
    seq![MenuEntry::Continue] + Seq::new(n, |i: int| MenuEntry::SystemImage(i as usize)) + seq![
        MenuEntry::Recovery,
        MenuEntry::Factory,
        MenuEntry::ExternalBoot,
        MenuEntry::VerboseBoot,
    ]
}

/// The menu lines for `target_count` targets.
pub fn menu_entries(target_count: usize) -> (res: Vec<MenuEntry>)
    requires
        target_count + 5 <= usize::MAX,
    ensures
        res@ == menu_entries_spec(target_count as nat),
{
    let mut entries: Vec<MenuEntry> = Vec::new();
    entries.push(MenuEntry::Continue);
    let mut i: usize = 0;
    while i < target_count
        invariant
            i <= target_count,
            entries@ == seq![MenuEntry::Continue] + Seq::new(i as nat, |k: int| MenuEntry::SystemImage(k as usize)),
        decreases target_count - i,
    {
        entries.push(MenuEntry::SystemImage(i));
        i = i + 1;
        assert(entries@ =~= seq![MenuEntry::Continue] + Seq::new(i as nat, |k: int| MenuEntry::SystemImage(k as usize)));
    }
    entries.push(MenuEntry::Recovery);
    entries.push(MenuEntry::Factory);
    entries.push(MenuEntry::ExternalBoot);
    entries.push(MenuEntry::VerboseBoot);
    assert(entries@ =~= menu_entries_spec(target_count as nat));
    entries
}

/// The selection a menu line stands for; every line but a System Image
/// keeps the default target.
pub open spec fn selection_for_spec(entry: MenuEntry, default_target: usize) -> BootSelection {
    match entry {
        MenuEntry::Continue => BootSelection { action: BootMenuAction::Continue, target_index: default_target },
        MenuEntry::SystemImage(i) => BootSelection { action: BootMenuAction::SystemImage, target_index: i },
        MenuEntry::Recovery => BootSelection { action: BootMenuAction::Recovery, target_index: default_target },
        MenuEntry::Factory => BootSelection { action: BootMenuAction::Factory, target_index: default_target },
        MenuEntry::ExternalBoot => BootSelection { action: BootMenuAction::ExternalBoot, target_index: default_target },
        MenuEntry::VerboseBoot => BootSelection { action: BootMenuAction::VerboseBoot, target_index: default_target },
    }
}

/// The selection a menu line stands for.
pub fn selection_for(entry: MenuEntry, default_target: usize) -> (res: BootSelection)
    ensures
        res == selection_for_spec(entry, default_target),
{
    match entry {
        MenuEntry::Continue => BootSelection { action: BootMenuAction::Continue, target_index: default_target },
        MenuEntry::SystemImage(i) => BootSelection { action: BootMenuAction::SystemImage, target_index: i },
        MenuEntry::Recovery => BootSelection { action: BootMenuAction::Recovery, target_index: default_target },
        MenuEntry::Factory => BootSelection { action: BootMenuAction::Factory, target_index: default_target },
        MenuEntry::ExternalBoot => BootSelection { action: BootMenuAction::ExternalBoot, target_index: default_target },
        MenuEntry::VerboseBoot => BootSelection { action: BootMenuAction::VerboseBoot, target_index: default_target },
    }
}

/// The text of a menu line.
pub open spec fn entry_label_spec(entry: MenuEntry, targets: Seq<BootTargetView>, default_target: usize) -> Seq<char> {
    match entry {
        MenuEntry::Continue => "Continue to Luna"@,
        MenuEntry::SystemImage(i) => if i < targets.len() {
            "System Image: "@ + targets[i as int].name + " "@ + "["@ + targets[i as int].system_version + "]"@
                + if i == default_target {
                " [Current]"@
            } else {
                Seq::empty()
            }
        } else {
            "System Image: "@ + "<invalid target>"@
        },
        MenuEntry::Recovery => "Recovery Environment"@,
        MenuEntry::Factory => "Factory Environment"@,
        MenuEntry::ExternalBoot => "Boot from USB / External Device"@,
        MenuEntry::VerboseBoot => "Verbose Boot"@,
    }
}

/// The text of a menu line.
pub fn entry_label(entry: MenuEntry, targets: &Vec<BootTarget>, default_target: usize) -> (res: String)
    ensures
        res@ == entry_label_spec(entry, views(targets@), default_target),
{
    let mut label = String::new();
    match entry {
        MenuEntry::Continue => label.append("Continue to Luna"),
        MenuEntry::SystemImage(index) => {
            label.append("System Image: ");
            if index < targets.len() {
                assert(views(targets@)[index as int] == targets@[index as int]@);
                label.append(targets[index].name.as_str());
                label.append(" ");
                label.append("[");
                label.append(targets[index].system_version.as_str());
                label.append("]");
                if index == default_target {
                    label.append(" [Current]");
                }
            } else {
                label.append("<invalid target>");
            }
        },
        MenuEntry::Recovery => label.append("Recovery Environment"),
        MenuEntry::Factory => label.append("Factory Environment"),
        MenuEntry::ExternalBoot => label.append("Boot from USB / External Device"),
        MenuEntry::VerboseBoot => label.append("Verbose Boot"),
    }
    label
}

/// A key the menu reacts to.
#[derive(Debug, Clone, Copy, PartialEq, Eq, Structural)]
pub enum MenuKey {
    Up,
    Down,
    Enter,
    Escape,
    Other,
}

/// What the menu does after a key.
#[derive(Debug, Clone, Copy, PartialEq, Eq, Structural)]
pub enum MenuStep {
    /// Redraw with this line highlighted.
    Highlight(usize),
    /// Leave the menu with this selection.
    Choose(BootSelection),
}

/// One key press: up and down move the highlight within the menu, enter
/// chooses the highlighted line, escape continues with the default target.
pub open spec fn menu_step_spec(entries: Seq<MenuEntry>, selected: usize, key: MenuKey, default_target: usize) -> MenuStep {
    match key {
        MenuKey::Up => MenuStep::Highlight(if selected == 0 { 0 } else { (selected - 1) as usize }),
        MenuKey::Down => MenuStep::Highlight(if selected + 1 < entries.len() {
            (selected + 1) as usize
        } else {
            selected
        }),
        MenuKey::Enter => MenuStep::Choose(selection_for_spec(entries[selected as int], default_target)),
        MenuKey::Escape => MenuStep::Choose(
            BootSelection { action: BootMenuAction::Continue, target_index: default_target },
        ),
        MenuKey::Other => MenuStep::Highlight(selected),
    }
}

/// Reacts to one key press.
pub fn menu_step(entries: &Vec<MenuEntry>, selected: usize, key: MenuKey, default_target: usize) -> (res: MenuStep)
    requires
        selected < entries@.len(),
    ensures
        res == menu_step_spec(entries@, selected, key, default_target),
        res matches MenuStep::Highlight(s) ==> s < entries@.len(),
        key is Up && selected > 0 ==> res == MenuStep::Highlight((selected - 1) as usize),
        key is Up && selected == 0 ==> res == MenuStep::Highlight(0),
        key is Down && selected + 1 < entries@.len() ==> res == MenuStep::Highlight((selected + 1) as usize),
        key is Down && selected + 1 == entries@.len() ==> res == MenuStep::Highlight(selected),
{
    let n = entries.len();
    match key {
        MenuKey::Up => MenuStep::Highlight(if selected == 0 { 0 } else { selected - 1 }),
        MenuKey::Down => MenuStep::Highlight(if selected + 1 < n {
            selected + 1
        } else {
            selected
        }),
        MenuKey::Enter => MenuStep::Choose(selection_for(entries[selected], default_target)),
        MenuKey::Escape => MenuStep::Choose(
            BootSelection { action: BootMenuAction::Continue, target_index: default_target },
        ),
        MenuKey::Other => MenuStep::Highlight(selected),
    }
}

/// Up moves the highlight exactly one line up and never above the first
/// line; Down exactly one line down and never past the last; Escape
/// continues with the default target, Enter chooses, and any other key
/// leaves the highlight where it is.
pub proof fn lemma_menu_navigation(entries: Seq<MenuEntry>, selected: usize, default_target: usize)
    requires
        selected < entries.len(),
        entries.len() <= usize::MAX,
    ensures
        selected > 0 ==> menu_step_spec(entries, selected, MenuKey::Up, default_target) == MenuStep::Highlight(
            (selected - 1) as usize,
        ),
        selected == 0 ==> menu_step_spec(entries, selected, MenuKey::Up, default_target) == MenuStep::Highlight(0),
        selected + 1 < entries.len() ==> menu_step_spec(entries, selected, MenuKey::Down, default_target)
            == MenuStep::Highlight((selected + 1) as usize),
        selected + 1 == entries.len() ==> menu_step_spec(entries, selected, MenuKey::Down, default_target)
            == MenuStep::Highlight(selected),
        menu_step_spec(entries, selected, MenuKey::Other, default_target) == MenuStep::Highlight(selected),
        menu_step_spec(entries, selected, MenuKey::Escape, default_target) == MenuStep::Choose(
            BootSelection { action: BootMenuAction::Continue, target_index: default_target },
        ),
        menu_step_spec(entries, selected, MenuKey::Enter, default_target) is Choose,
        forall|k: MenuKey| #[trigger] menu_step_spec(entries, selected, k, default_target) matches MenuStep::Highlight(h) ==> h
            < entries.len() && (h as int - selected as int == -1 || h == selected || h as int - selected as int == 1),
{
    assert forall|k: MenuKey| (#[trigger] menu_step_spec(entries, selected, k, default_target) matches MenuStep::Highlight(h) ==> h
        < entries.len() && (h as int - selected as int == -1 || h == selected || h as int - selected as int == 1)) by {
        match k {
            MenuKey::Up => {},
            MenuKey::Down => {},
            MenuKey::Enter => {},
            MenuKey::Escape => {},
            MenuKey::Other => {},
        }
    }
}

/// Up followed by Down (or Down followed by Up) comes back to the line it
/// started from, whenever the first move actually moved.
pub proof fn lemma_menu_moves_undo(entries: Seq<MenuEntry>, selected: usize, default_target: usize)
    requires
        selected < entries.len(),
        entries.len() <= usize::MAX,
    ensures
        selected > 0 ==> (menu_step_spec(entries, selected, MenuKey::Up, default_target) matches MenuStep::Highlight(h)
            && menu_step_spec(entries, h, MenuKey::Down, default_target) == MenuStep::Highlight(selected)),
        selected + 1 < entries.len() ==> (menu_step_spec(entries, selected, MenuKey::Down, default_target) matches MenuStep::Highlight(h)
            && menu_step_spec(entries, h, MenuKey::Up, default_target) == MenuStep::Highlight(selected)),
{
    if selected > 0 {
        let h = (selected - 1) as usize;
        assert(menu_step_spec(entries, selected, MenuKey::Up, default_target) == MenuStep::Highlight(h));
        assert(h + 1 < entries.len());
        assert(menu_step_spec(entries, h, MenuKey::Down, default_target) == MenuStep::Highlight((h + 1) as usize));
    }
    if selected + 1 < entries.len() {
        let h = (selected + 1) as usize;
        assert(menu_step_spec(entries, selected, MenuKey::Down, default_target) == MenuStep::Highlight(h));
        assert(menu_step_spec(entries, h, MenuKey::Up, default_target) == MenuStep::Highlight((h - 1) as usize));
    }
}

/// Without a data partition a normal boot cannot proceed: continue, a
/// System Image and verbose boot all turn into recovery of the default
/// target.
pub open spec fn effective_selection_spec(s: BootSelection, data_found: bool, default_target: usize) -> BootSelection {
    if !data_found && (s.action == BootMenuAction::Continue || s.action == BootMenuAction::SystemImage
        || s.action == BootMenuAction::VerboseBoot) {
        BootSelection { action: BootMenuAction::Recovery, target_index: default_target }
    } else {
        s
    }
}

pub fn effective_selection(selection: BootSelection, data_found: bool, default_target: usize) -> (res: BootSelection)
    ensures
        res == effective_selection_spec(selection, data_found, default_target),
{
    if !data_found && (selection.action == BootMenuAction::Continue || selection.action
        == BootMenuAction::SystemImage || selection.action == BootMenuAction::VerboseBoot) {
        BootSelection { action: BootMenuAction::Recovery, target_index: default_target }
    } else {
        selection
    }
}

/// The boot mode an action asks for.
pub open spec fn boot_mode_spec(a: BootMenuAction) -> BootMode {
    match a {
        BootMenuAction::VerboseBoot => BootMode::Detailed,
        BootMenuAction::Recovery => BootMode::Recovery,
        BootMenuAction::Factory => BootMode::Factory,
        _ => BootMode::Normal,
    }
}

pub fn boot_mode_for(action: BootMenuAction) -> (res: BootMode)
    ensures
        res == boot_mode_spec(action),
{
    match action {
        BootMenuAction::VerboseBoot => BootMode::Detailed,
        BootMenuAction::Recovery => BootMode::Recovery,
        BootMenuAction::Factory => BootMode::Factory,
        _ => BootMode::Normal,
    }
}

/// The target a selection boots: the recovery or factory environment, or
/// the selected System Image; with the error when it is not there.
pub open spec fn selected_target_spec(c: &BootCatalog, s: BootSelection) -> Result<BootTargetView, BootError> {
    match s.action {
        BootMenuAction::Recovery => match c.recovery {
            Some(t) => Ok(t@),
            None => Err(BootError::RecoveryUnavailable),
        },
        BootMenuAction::Factory => match c.factory {
            Some(t) => Ok(t@),
            None => Err(BootError::Unsupported("factory environment is unavailable on this installation")),
        },
        _ => if s.target_index < c.targets@.len() {
            Ok(c.targets@[s.target_index as int]@)
        } else {
            Err(BootError::TargetNotFound)
        },
    }
}

/// Picks the target for a selection (external boot is handled before).
pub fn select_target(catalog: &BootCatalog, selection: BootSelection) -> (res: Result<BootTarget, BootError>)
    requires
        selection.action != BootMenuAction::ExternalBoot,
    ensures
        match selected_target_spec(catalog, selection) {
            Ok(v) => res matches Ok(t) && t@ == v,
            Err(e) => res == Err::<BootTarget, BootError>(e),
        },
{
    match selection.action {
        BootMenuAction::Recovery => match &catalog.recovery {
            Some(t) => Ok(t.duplicate()),
            None => Err(BootError::RecoveryUnavailable),
        },
        BootMenuAction::Factory => match &catalog.factory {
            Some(t) => Ok(t.duplicate()),
            None => Err(BootError::Unsupported("factory environment is unavailable on this installation")),
        },
        _ => if selection.target_index < catalog.targets.len() {
            Ok(catalog.targets[selection.target_index].duplicate())
        } else {
            Err(BootError::TargetNotFound)
        },
    }
}

/// Splitting state for whitespace-separated words: finished words and the
/// word being read.
pub open spec fn ws_split(s: Seq<char>) -> (Seq<Seq<char>>, Seq<char>)
    decreases s.len(),
{
    if s.len() == 0 {
        (Seq::empty(), Seq::empty())
    } else {
        let (done, cur) = ws_split(s.drop_last());
        if is_ws(s.last()) {
            if cur.len() > 0 {
                (done.push(cur), Seq::empty())
            } else {
                (done, Seq::empty())
            }
        } else {
            (done, cur.push(s.last()))
        }
    }
}

/// The whitespace-separated words of `s` (`str::split_whitespace`).
pub open spec fn words(s: Seq<char>) -> Seq<Seq<char>> {
    let (done, cur) = ws_split(s);
    if cur.len() > 0 {
        done.push(cur)
    } else {
        done
    }
}

/// Words a verbose boot drops: `quiet` and any `loglevel=` setting.
pub open spec fn dropped_for_verbose(w: Seq<char>) -> bool {
    w == "quiet"@ || (w.len() >= 9 && w.subrange(0, 9) == "loglevel="@)
}

pub open spec fn kept_words(ws: Seq<Seq<char>>) -> Seq<Seq<char>>
    decreases ws.len(),
{
    if ws.len() == 0 {
        Seq::empty()
    } else if dropped_for_verbose(ws.last()) {
        kept_words(ws.drop_last())
    } else {
        kept_words(ws.drop_last()).push(ws.last())
    }
}

/// Words joined by single spaces.
pub open spec fn join_words(ws: Seq<Seq<char>>) -> Seq<char>
    decreases ws.len(),
{
    if ws.len() == 0 {
        Seq::empty()
    } else if ws.len() == 1 {
        ws[0]
    } else {
        join_words(ws.drop_last()) + " "@ + ws.last()
    }
}

pub open spec fn verbose_suffix() -> Seq<char> {
    " console=tty0 console=ttyS0,115200n8 loglevel=7 ignore_loglevel initcall_debug"@
}

/// The command line of a verbose boot: the target's words without `quiet`
/// and `loglevel=`, then the console and debug settings.
pub open spec fn verbose_cmdline_spec(cmdline: Seq<char>) -> Seq<char> {
    join_words(kept_words(words(cmdline))) + verbose_suffix()
}

fn is_dropped(w: &Vec<char>) -> (res: bool)
    ensures
        res == dropped_for_verbose(w@),
{
    let q = chars_of("quiet");
    let l = chars_of("loglevel=");
    proof {
        reveal_strlit("loglevel=");
    }
    crate::text::chars_eq(w.as_slice(), q.as_slice()) || (w.len() >= 9 && crate::text::has_prefix_at(
        w.as_slice(),
        0,
        l.as_slice(),
    ))
}

/// Rewrites a command line for a verbose boot.
pub fn verbose_cmdline(cmdline: &str) -> (res: String)
    ensures
        res@ == verbose_cmdline_spec(cmdline@),
{
    let chars = chars_of(cmdline);
    let mut done: Vec<Vec<char>> = Vec::new();
    let mut cur: Vec<char> = Vec::new();
    let mut i: usize = 0;
    while i < chars.len()
        invariant
            i <= chars@.len(),
            crate::config_text::chars_view(done@) == ws_split(chars@.subrange(0, i as int)).0,
            cur@ == ws_split(chars@.subrange(0, i as int)).1,
        decreases chars@.len() - i,
    {
        let ghost pre = chars@.subrange(0, i as int + 1);
        assert(pre.drop_last() =~= chars@.subrange(0, i as int));
        if char_is_ws(chars[i]) {
            if cur.len() > 0 {
                let ghost before = crate::config_text::chars_view(done@);
                let w = cur;
                done.push(w);
                cur = Vec::new();
                assert(crate::config_text::chars_view(done@) =~= before.push(w@));
            }
        } else {
            cur.push(chars[i]);
        }
        i = i + 1;
    }
    assert(chars@.subrange(0, chars@.len() as int) =~= chars@);
    if cur.len() > 0 {
        let ghost before = crate::config_text::chars_view(done@);
        let w = cur;
        done.push(w);
        assert(crate::config_text::chars_view(done@) =~= before.push(w@));
    }
    let ghost ws = crate::config_text::chars_view(done@);
    assert(ws == words(cmdline@));
    let mut out = String::new();
    let mut count: usize = 0;
    let ghost mut kept: Seq<Seq<char>> = Seq::empty();
    let mut k: usize = 0;
    while k < done.len()
        invariant
            ws == crate::config_text::chars_view(done@),
            k <= ws.len(),
            kept == kept_words(ws.subrange(0, k as int)),
            out@ == join_words(kept),
            count == kept.len(),
            count <= k,
        decreases ws.len() - k,
    {
        let ghost pre = ws.subrange(0, k as int + 1);
        assert(pre.drop_last() =~= ws.subrange(0, k as int));
        assert(ws[k as int] == done@[k as int]@);
        if !is_dropped(&done[k]) {
            if count > 0 {
                out.append(" ");
            }
            let ghost prev = kept;
            let wv = done[k].as_slice();
            let mut j: usize = 0;
            let ghost base = out@;
            while j < wv.len()
                invariant
                    j <= wv@.len(),
                    out@ == base + wv@.subrange(0, j as int),
                decreases wv@.len() - j,
            {
                string_push(&mut out, wv[j]);
                j = j + 1;
                assert(out@ =~= base + wv@.subrange(0, j as int));
            }
            assert(wv@.subrange(0, wv@.len() as int) =~= wv@);
            proof {
                kept = prev.push(ws[k as int]);
                assert(kept.drop_last() =~= prev);
                if prev.len() == 0 {
                    assert(kept.len() == 1);
                    assert(out@ =~= ws[k as int]);
                } else {
                    assert(out@ =~= join_words(prev) + " "@ + ws[k as int]);
                }
            }
            count = count + 1;
        }
        k = k + 1;
    }
    assert(ws.subrange(0, ws.len() as int) =~= ws);
    out.append(" console=tty0 console=ttyS0,115200n8 loglevel=7 ignore_loglevel initcall_debug");
    out
}

/// The targets to try, in order, once `selected` is chosen. A fallback is a
/// whole image, init and kernel tuple: a recovery boot falls back to the
/// factory environment; a default boot to the boot state's fallback target
/// and then to every older target; an explicit System Image or verbose
/// boot to every older target. A candidate equal to the selected tuple is
/// not repeated.
pub open spec fn candidates_spec(c: &BootCatalog, s: BootSelection, selected: BootTargetView) -> Seq<BootTargetView> {
    let later = views(c.targets@).subrange(
        if s.target_index + 1 <= c.targets@.len() { s.target_index + 1 } else { c.targets@.len() as int },
        c.targets@.len() as int,
    );
    if s.action == BootMenuAction::Recovery {
        match c.factory {
            Some(f) => if !same_target_spec(selected, f@) {
                seq![selected, f@]
            } else {
                seq![selected]
            },
            None => seq![selected],
        }
    } else if s.action == BootMenuAction::Continue {
        let fallback = match c.boot_state.fallback {
            Some(r) => match crate::catalog::ref_lookup(c, crate::catalog::ref_triple(&r)) {
                Some(fb) => if !same_target_spec(selected, fb) {
                    seq![fb]
                } else {
                    Seq::empty()
                },
                None => Seq::empty(),
            },
            None => Seq::empty(),
        };
        seq![selected] + fallback + later
    } else if s.action == BootMenuAction::SystemImage || s.action == BootMenuAction::VerboseBoot {
        seq![selected] + later
    } else {
        seq![selected]
    }
}

/// Lists the targets to try after `selected` (see [`candidates_spec`]).
pub fn boot_candidates(catalog: &BootCatalog, selection: BootSelection, selected: &BootTarget) -> (res: Vec<BootTarget>)
    ensures
        views(res@) == candidates_spec(catalog, selection, selected@),
{
    let mut out: Vec<BootTarget> = Vec::new();
    out.push(selected.duplicate());
    assert(views(out@) =~= seq![selected@]);
    if selection.action == BootMenuAction::Recovery {
        if let Some(f) = &catalog.factory {
            if !same_target(selected, f) {
                let ghost before = views(out@);
                out.push(f.duplicate());
                assert(views(out@) =~= before.push(f@));
            }
        }
        return out;
    }
    if selection.action == BootMenuAction::Continue {
        if let Some(r) = &catalog.boot_state.fallback {
            if let Some(fb) = catalog.target_for_ref(r) {
                if !same_target(selected, &fb) {
                    let ghost before = views(out@);
                    let ghost fv = fb@;
                    out.push(fb);
                    assert(views(out@) =~= before.push(fv));
                }
            }
        }
    } else if !(selection.action == BootMenuAction::SystemImage || selection.action == BootMenuAction::VerboseBoot) {
        return out;
    }
    let n = catalog.targets.len();
    let start = if selection.target_index < n { selection.target_index + 1 } else { n };
    let ghost head = views(out@);
    let mut i = start;
    while i < n
        invariant
            n == catalog.targets@.len(),
            start <= i <= n,
            views(out@) == head + views(catalog.targets@).subrange(start as int, i as int),
        decreases n - i,
    {
        let ghost before = views(out@);
        let d = catalog.targets[i].duplicate();
        let ghost dv = d@;
        out.push(d);
        assert(views(catalog.targets@)[i as int] == catalog.targets@[i as int]@);
        assert(views(out@) =~= before.push(dv));
        assert(views(out@) =~= head + views(catalog.targets@).subrange(start as int, i + 1));
        i = i + 1;
    }
    out
}

/// The boot state handed to the system: the catalog's fallback depth and
/// failure code; the previous attempt counts as failed when its marker is
/// still present or the stored state says so, and its id is the marker's
/// or else the stored one.
pub open spec fn boot_state_spec(previous: Option<BootAttemptMarker>, c: BootStateConfig) -> BootState {
    BootState {
        fallback_depth: c.fallback_depth,
        previous_attempt_failed: previous is Some || c.previous_attempt_failed,
        previous_attempt_id: match previous {
            Some(m) => m.attempt_id,
            None => c.attempt_id,
        },
        failure_code: c.failure_code,
    }
}

pub fn boot_state_for(previous: Option<BootAttemptMarker>, config: &BootStateConfig) -> (res: BootState)
    ensures
        res == boot_state_spec(previous, *config),
        res.previous_attempt_failed <==> (previous is Some || config.previous_attempt_failed),
        res.fallback_depth == config.fallback_depth && res.failure_code == config.failure_code,
{
    BootState {
        fallback_depth: config.fallback_depth,
        previous_attempt_failed: previous.is_some() || config.previous_attempt_failed,
        previous_attempt_id: match previous {
            Some(m) => m.attempt_id,
            None => config.attempt_id,
        },
        failure_code: config.failure_code,
    }
}

/// The previous attempt is reported failed exactly when its marker is
/// still present or the stored boot state already records a failure; the
/// attempt id is the marker's when there is one, else the stored one; the
/// fallback depth and failure code are the stored ones.
pub proof fn lemma_boot_state_reports_failures(previous: Option<BootAttemptMarker>, c: BootStateConfig)
    ensures
        c.previous_attempt_failed ==> boot_state_spec(previous, c).previous_attempt_failed,
        previous is Some ==> boot_state_spec(previous, c).previous_attempt_failed,
        previous is None && !c.previous_attempt_failed ==> !boot_state_spec(previous, c).previous_attempt_failed,
        previous matches Some(m) ==> boot_state_spec(previous, c).previous_attempt_id == m.attempt_id,
        previous is None ==> boot_state_spec(previous, c).previous_attempt_id == c.attempt_id,
        boot_state_spec(previous, c).fallback_depth == c.fallback_depth,
        boot_state_spec(previous, c).failure_code == c.failure_code,
{
}

/// Whether a candidate that fails to load ends the boot: only a normal
/// boot moves on to the next candidate.
pub fn preparation_failure_is_fatal(mode: BootMode) -> (res: bool)
    ensures
        res == (mode != BootMode::Normal),
{
    !matches!(mode, BootMode::Normal)
}

/// Which target to boot, how, and what to fall back to.
pub struct BootPlan {
    pub selection: BootSelection,
    pub mode: BootMode,
    /// The chosen target, its command line adjusted for a verbose boot.
    pub selected: BootTarget,
    /// Targets to try in order; the first is the chosen one.
    pub candidates: Vec<BootTarget>,
}

impl BootPlan {
    /// The decisions between the menu and kernel loading: a missing data
    /// partition forces recovery, the selection picks the target, the
    /// action fixes the mode, a verbose boot rewrites the command line, and
    /// the fallback candidates are listed.
    pub fn decide(catalog: &BootCatalog, selection: BootSelection, data_found: bool) -> (res: Result<BootPlan, BootError>)
        requires
            selection.action != BootMenuAction::ExternalBoot,
        ensures
            ({
                let s = effective_selection_spec(selection, data_found, catalog.default_target);
                match selected_target_spec(catalog, s) {
                    Err(e) => res == Err::<BootPlan, BootError>(e),
                    Ok(t) => res matches Ok(p) && {
                        let chosen = if s.action == BootMenuAction::VerboseBoot {
                            BootTargetView { kernel_cmdline: verbose_cmdline_spec(t.kernel_cmdline), ..t }
                        } else {
                            t
                        };
                        &&& p.selection == s
                        &&& p.mode == boot_mode_spec(s.action)
                        &&& p.selected@ == chosen
                        &&& views(p.candidates@) == candidates_spec(catalog, s, chosen)
                    },
                }
            }),
    {
        let s = effective_selection(selection, data_found, catalog.default_target);
        let mut selected = match select_target(catalog, s) {
            Ok(t) => t,
            Err(e) => return Err(e),
        };
        let mode = boot_mode_for(s.action);
        if s.action == BootMenuAction::VerboseBoot {
            let line = verbose_cmdline(selected.kernel_cmdline.as_str());
            selected = selected.with_cmdline(line);
        }
        let candidates = boot_candidates(catalog, s, &selected);
        Ok(BootPlan { selection: s, mode, selected, candidates })
    }
}

} // verus!
