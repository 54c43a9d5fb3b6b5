//! What a key press does to the menu: the text typed so far, the cursor in
//! it, the candidates that match and the one that is selected.

use vstd::prelude::*;
use vstd::string::StringExecFns;
use crate::alignment::{alignment_match, recursive_scores};
use crate::editing::{insert_at, inserted_at, remove_at, removed_at};
use crate::fuzzy::{fuzzy_match, fuzzy_matches};
use crate::positional::{positional_matches, simple_match};
use crate::scored::scored_matches;
use crate::settings::{Settings, SettingsView};
use crate::text::{byte_len, byte_length};
use crate::tiered::{dmenu_match, tiered_matches};

verus! {

/// The keys that the menu knows.
#[derive(Clone, Copy, Debug, PartialEq, Eq, Structural)]
pub enum Key {
    A,
    B,
    C,
    D,
    E,
    F,
    G,
    ShiftG,
    H,
    I,
    J,
    K,
    L,
    M,
    N,
    P,
    U,
    W,
    Delete,
    BackSpace,
    End,
    Escape,
    Home,
    Left,
    Up,
    Next,
    Prior,
    Return,
    KpEnter,
    Right,
    Down,
    Tab,
    Other,
}

/// One key press.
#[derive(Clone, Copy, Debug, PartialEq, Eq, Structural)]
pub struct Press {
    /// The key.
    pub key: Key,
    /// Control is held.
    pub control: bool,
    /// The first modifier, Alt on most keyboards, is held.
    pub mod1: bool,
    /// Shift is held.
    pub shift: bool,
    /// The character that the press types.
    pub typed: char,
    /// Whether that character can be printed; a control character cannot.
    pub printable: bool,
}

/// The state of the menu.
#[derive(Clone, Debug)]
pub struct Status {
    /// The text typed so far.
    pub text: String,
    /// The candidates that match it, best first.
    pub matches: Vec<String>,
    /// All candidates.
    pub items: Vec<String>,
    /// The selected candidate; empty where none is.
    pub selected: String,
    /// The page of matches shown.
    pub page: u32,
    /// The settings.
    pub settings: Settings,
}

/// The state of the menu, as plain values.
pub struct StatusView {
    pub text: Seq<char>,
    pub matches: Seq<Seq<char>>,
    pub items: Seq<Seq<char>>,
    pub selected: Seq<char>,
    pub page: u32,
    pub settings: SettingsView,
}

impl View for Status {
    type V = StatusView;

    open spec fn view(&self) -> StatusView {
        StatusView {
            text: self.text@,
            matches: self.matches.deep_view(),
            items: self.items.deep_view(),
            selected: self.selected@,
            page: self.page,
            settings: self.settings@,
        }
    }
}

/// What is to be done after a key press.
#[derive(Clone, Debug)]
pub enum Outcome {
    /// Draw the menu again.
    Redraw,
    /// Nothing.
    Ignore,
    /// Leave.
    Quit,
    /// Print this line and leave.
    Print(String),
    /// The press cannot be carried out: the cursor does not stand where a
    /// character can be taken out or put in, or a number has no room.
    Fault,
}

/// What is to be done after a key press, as plain values.
pub enum OutcomeView {
    Redraw,
    Ignore,
    Quit,
    Print(Seq<char>),
    Fault,
}

impl View for Outcome {
    type V = OutcomeView;

    open spec fn view(&self) -> OutcomeView {
        match self {
            Outcome::Redraw => OutcomeView::Redraw,
            Outcome::Ignore => OutcomeView::Ignore,
            Outcome::Quit => OutcomeView::Quit,
            Outcome::Print(line) => OutcomeView::Print(line@),
            Outcome::Fault => OutcomeView::Fault,
        }
    }
}

/// The place at which `binary_search` of slices finds `wanted` in `list`, if
/// it finds it. The search takes the list to be sorted; the list of matches is
/// not sorted in general, and nothing is known of what the search finds then.
pub uninterp spec fn search_result(list: Seq<Seq<char>>, wanted: Seq<char>) -> Option<int>;

/// Calls `binary_search` of slices. Taken on trust: what it finds depends on
/// the list and on the text looked for alone.
#[verifier::external_body]
fn search(list: &Vec<String>, wanted: &String) -> (r: Option<usize>)
    ensures
        match r {
            Some(n) => search_result(list.deep_view(), wanted@) == Some(n as int),
            None => search_result(list.deep_view(), wanted@) is None,
        },
{
    list.binary_search(wanted).ok()
}

/// The key that a press stands for: with Control or the first modifier held
/// some letters stand for other keys. A press that stands for nothing is
/// ignored.
pub open spec fn remapped(press: Press) -> Option<Key> {
    if press.control {
        match press.key {
            Key::A => Some(Key::Home),
            Key::B => Some(Key::Left),
            Key::C => Some(Key::Escape),
            Key::D => Some(Key::Delete),
            Key::E => Some(Key::End),
            Key::F => Some(Key::Right),
            Key::H => Some(Key::BackSpace),
            Key::I => Some(Key::Tab),
            Key::J => Some(Key::Return),
            Key::M => Some(Key::Return),
            Key::N => Some(Key::Down),
            Key::P => Some(Key::Up),
            Key::K => Some(Key::K),
            Key::U => Some(Key::U),
            Key::W => Some(Key::W),
            _ => None,
        }
    } else if press.mod1 {
        match press.key {
            Key::G => Some(Key::Home),
            Key::ShiftG => Some(Key::End),
            Key::H => Some(Key::Up),
            Key::J => Some(Key::Next),
            Key::K => Some(Key::Prior),
            Key::L => Some(Key::Down),
            _ => None,
        }
    } else {
        Some(press.key)
    }
}

/// Takes out characters at the cursor, moving it one byte left after each,
/// as long as the cursor is not at the start and the character taken out is
/// a space, or is none if `spaces` is false. The character that ends the run
/// is taken out too. Nothing comes back where a character cannot be taken
/// out.
pub open spec fn erased(text: Seq<char>, cursor: int, spaces: bool) -> Option<(Seq<char>, int)>
    decreases cursor,
{
    if cursor <= 0 {
        Some((text, cursor))
    } else {
        match removed_at(text, cursor) {
            None => None,
            Some(cut) => if (cut.1 == ' ') == spaces {
                erased(cut.0, cursor - 1, spaces)
            } else {
                Some((cut.0, cursor))
            },
        }
    }
}

/// What Control with K, U or W does to the text before the key is looked
/// at: K and U take out the character at the cursor, W takes out a run of
/// spaces and then a run of other characters. Nothing comes back where a
/// character cannot be taken out.
pub open spec fn cut_first(text: Seq<char>, cursor: int, press: Press) -> Option<(Seq<char>, int)> {
    if press.control && (press.key == Key::K || press.key == Key::U) {
        match removed_at(text, cursor) {
            Some(cut) => Some((cut.0, cursor)),
            None => None,
        }
    } else if press.control && press.key == Key::W {
        match erased(text, cursor, true) {
            Some(first) => erased(first.0, first.1, false),
            None => None,
        }
    } else {
        Some((text, cursor))
    }
}

/// The first of the matches, or the empty text where there is none.
pub open spec fn first_or_empty(matches: Seq<Seq<char>>) -> Seq<char> {
    if matches.len() > 0 {
        matches[0]
    } else {
        Seq::empty()
    }
}

/// The last of the matches, or the empty text where there is none.
pub open spec fn last_or_empty(matches: Seq<Seq<char>>) -> Seq<char> {
    if matches.len() > 0 {
        matches.last()
    } else {
        Seq::empty()
    }
}

/// What a key does.
pub enum Move {
    /// The menu goes on with this text, cursor, selection and page.
    Go(Seq<char>, int, Seq<char>, u32),
    /// The press ends with this outcome and changes nothing.
    Stop(OutcomeView),
}

/// Selects the match before or behind the selected one, as a sorted search
/// finds the selected one. With no match before it the press is ignored or,
/// for the key Left, cannot be carried out.
pub open spec fn select_before(status: StatusView, cursor: int, strict: bool) -> Move {
    match search_result(status.matches, status.selected) {
        Some(n) => if n == 0 {
            Move::Stop(
                if strict {
                    OutcomeView::Fault
                } else {
                    OutcomeView::Ignore
                },
            )
        } else if n - 1 < status.matches.len() {
            Move::Go(status.text, cursor, status.matches[n - 1], status.page)
        } else {
            Move::Stop(OutcomeView::Fault)
        },
        None => if strict {
            Move::Go(status.text, cursor, Seq::empty(), status.page)
        } else {
            Move::Stop(OutcomeView::Ignore)
        },
    }
}

/// Selects the match behind the selected one, as a sorted search finds the
/// selected one; the press is ignored where there is none behind it.
pub open spec fn select_behind(status: StatusView, cursor: int) -> Move {
    match search_result(status.matches, status.selected) {
        Some(n) => if status.matches.len() == 0 {
            Move::Stop(OutcomeView::Fault)
        } else if n < status.matches.len() - 1 {
            Move::Go(status.text, cursor, status.matches[n + 1], status.page)
        } else {
            Move::Stop(OutcomeView::Ignore)
        },
        None => Move::Stop(OutcomeView::Ignore),
    }
}

/// What the key `key` does with the menu in state `status` and the cursor
/// at byte `cursor`.
pub open spec fn moved(status: StatusView, cursor: int, key: Key, press: Press) -> Move {
    let text = status.text;
    let len = byte_len(text) as int;
    let first = first_or_empty(status.matches);
    match key {
        Key::Delete => if len >= cursor {
            match removed_at(text, cursor) {
                Some(cut) => Move::Go(cut.0, cursor, status.selected, status.page),
                None => Move::Stop(OutcomeView::Fault),
            }
        } else {
            Move::Go(text, cursor, status.selected, status.page)
        },
        Key::BackSpace => if cursor > 0 && len > 0 {
            match removed_at(text, cursor - 1) {
                Some(cut) => Move::Go(cut.0, cursor - 1, status.selected, status.page),
                None => Move::Stop(OutcomeView::Fault),
            }
        } else {
            Move::Go(text, cursor, status.selected, status.page)
        },
        Key::End => if cursor < len {
            Move::Go(text, len, status.selected, status.page)
        } else {
            Move::Go(text, cursor, last_or_empty(status.matches), status.page)
        },
        Key::Escape => Move::Stop(OutcomeView::Quit),
        Key::Home => if status.selected == first {
            Move::Go(text, 0, status.selected, status.page)
        } else {
            Move::Go(text, cursor, first, status.page)
        },
        Key::Left => if status.selected == first {
            Move::Go(
                text,
                if cursor > 0 {
                    cursor - 1
                } else {
                    cursor
                },
                status.selected,
                status.page,
            )
        } else if status.settings.lines == 0 {
            select_before(status, cursor, true)
        } else {
            Move::Go(text, cursor, status.selected, status.page)
        },
        Key::Up => select_before(status, cursor, false),
        Key::Next => if status.page == u32::MAX {
            Move::Stop(OutcomeView::Fault)
        } else {
            Move::Go(text, cursor, status.selected, (status.page + 1) as u32)
        },
        Key::Prior => Move::Go(
            text,
            cursor,
            status.selected,
            if status.page > 0 {
                (status.page - 1) as u32
            } else {
                status.page
            },
        ),
        Key::Return | Key::KpEnter => Move::Stop(
            OutcomeView::Print(
                if press.shift || status.selected.len() == 0 {
                    text
                } else {
                    status.selected
                },
            ),
        ),
        Key::Right => if cursor < len {
            Move::Go(text, cursor + 1, status.selected, status.page)
        } else {
            select_behind(status, cursor)
        },
        Key::Down => select_behind(status, cursor),
        Key::Tab => if status.selected.len() != 0 {
            Move::Go(status.selected, byte_len(status.selected) as int, status.selected, status.page)
        } else {
            Move::Go(text, cursor, status.selected, status.page)
        },
        _ => if press.printable {
            match inserted_at(text, cursor, press.typed) {
                Some(longer) => if cursor < usize::MAX {
                    Move::Go(longer, cursor + 1, status.selected, status.page)
                } else {
                    Move::Stop(OutcomeView::Fault)
                },
                None => Move::Stop(OutcomeView::Fault),
            }
        } else {
            Move::Go(text, cursor, status.selected, status.page)
        },
    }
}

/// The matches for `text` by the matcher that `name` names: `fuzzy` the
/// forward scan, `dmenu` the tiers, `recursive` the alignments, any other
/// name the positions.
pub open spec fn matches_for(name: Seq<char>, text: Seq<char>, items: Seq<Seq<char>>) -> Seq<
    Seq<char>,
> {
    if name == "fuzzy"@ {
        fuzzy_matches(text, items)
    } else if name == "dmenu"@ {
        tiered_matches(text, items)
    } else if name == "recursive"@ {
        scored_matches(items, recursive_scores(text, items))
    } else {
        positional_matches(text, items)
    }
}

/// The state after a move. Where the text has changed the matches are found
/// anew and the first page is shown; a selection that is no match any more
/// gives way to the first match.
pub open spec fn settled(
    status: StatusView,
    text: Seq<char>,
    selected: Seq<char>,
    page: u32,
) -> StatusView {
    if text == status.text {
        StatusView { selected, page, ..status }
    } else {
        let matches = matches_for(status.settings.matcher, text, status.items);
        StatusView {
            text,
            matches,
            selected: if matches.contains(selected) {
                selected
            } else {
                first_or_empty(matches)
            },
            page: 0,
            ..status
        }
    }
}

/// What a key press does: the outcome, and the state and the cursor after
/// it. Only a press that ends in a new drawing changes them.
pub open spec fn step(status: StatusView, cursor: int, press: Press) -> (OutcomeView, StatusView, int) {
    match remapped(press) {
        None => (OutcomeView::Ignore, status, cursor),
        Some(key) => match cut_first(status.text, cursor, press) {
            None => (OutcomeView::Fault, status, cursor),
            Some(cut) => match moved(with_text(status, cut.0), cut.1, key, press) {
                Move::Stop(outcome) => (outcome, status, cursor),
                Move::Go(text, at, selected, page) => (
                    OutcomeView::Redraw,
                    settled(status, text, selected, page),
                    at,
                ),
            },
        },
    }
}

/// The key that a press stands for.
pub fn remap(press: &Press) -> (key: Option<Key>)
    ensures
        key == remapped(*press),
{
    if press.control {
        match press.key {
            Key::A => Some(Key::Home),
            Key::B => Some(Key::Left),
            Key::C => Some(Key::Escape),
            Key::D => Some(Key::Delete),
            Key::E => Some(Key::End),
            Key::F => Some(Key::Right),
            Key::H => Some(Key::BackSpace),
            Key::I => Some(Key::Tab),
            Key::J => Some(Key::Return),
            Key::M => Some(Key::Return),
            Key::N => Some(Key::Down),
            Key::P => Some(Key::Up),
            Key::K => Some(Key::K),
            Key::U => Some(Key::U),
            Key::W => Some(Key::W),
            _ => None,
        }
    } else if press.mod1 {
        match press.key {
            Key::G => Some(Key::Home),
            Key::ShiftG => Some(Key::End),
            Key::H => Some(Key::Up),
            Key::J => Some(Key::Next),
            Key::K => Some(Key::Prior),
            Key::L => Some(Key::Down),
            _ => None,
        }
    } else {
        Some(press.key)
    }
}

/// Takes out a run of characters at the cursor.
fn erase(text: String, cursor: usize, spaces: bool) -> (r: Option<(String, usize)>)
    ensures
        match r {
            Some((rest, at)) => erased(text@, cursor as int, spaces) == Some((rest@, at as int)),
            None => erased(text@, cursor as int, spaces) is None,
        },
{
    let mut rest = text;
    let mut at: usize = cursor;
    while at > 0
        invariant
            erased(text@, cursor as int, spaces) == erased(rest@, at as int, spaces),
        decreases at,
    {
        match remove_at(&rest, at) {
            None => {
                return None;
            },
            Some((shorter, c)) => {
                rest = shorter;
                if (c == ' ') != spaces {
                    return Some((rest, at));
                }
                at = at - 1;
            },
        }
    }
    Some((rest, at))
}

/// What Control with K, U or W does to the text before the key is looked at.
fn cut(text: &String, cursor: usize, press: &Press) -> (r: Option<(String, usize)>)
    ensures
        match r {
            Some((rest, at)) => cut_first(text@, cursor as int, *press) == Some(
                (rest@, at as int),
            ),
            None => cut_first(text@, cursor as int, *press) is None,
        },
{
    if press.control && (press.key == Key::K || press.key == Key::U) {
        match remove_at(text, cursor) {
            Some((rest, _)) => Some((rest, cursor)),
            None => None,
        }
    } else if press.control && press.key == Key::W {
        match erase(text.clone(), cursor, true) {
            Some((rest, at)) => erase(rest, at, false),
            None => None,
        }
    } else {
        Some((text.clone(), cursor))
    }
}

/// The first of the matches, or the empty text where there is none.
fn first_of(matches: &Vec<String>) -> (first: String)
    ensures
        first@ == first_or_empty(matches.deep_view()),
{
    if matches.len() > 0 {
        matches[0].clone()
    } else {
        String::new()
    }
}

/// The last of the matches, or the empty text where there is none.
fn last_of(matches: &Vec<String>) -> (last: String)
    ensures
        last@ == last_or_empty(matches.deep_view()),
{
    if matches.len() > 0 {
        matches[matches.len() - 1].clone()
    } else {
        String::new()
    }
}

/// What a key does, in memory.
pub enum Moved {
    Go(String, usize, String, u32),
    Stop(Outcome),
}

impl View for Moved {
    type V = Move;

    open spec fn view(&self) -> Move {
        match self {
            Moved::Go(text, cursor, selected, page) => Move::Go(
                text@,
                *cursor as int,
                selected@,
                *page,
            ),
            Moved::Stop(outcome) => Move::Stop(outcome@),
        }
    }
}

/// The state with another text.
pub open spec fn with_text(status: StatusView, text: Seq<char>) -> StatusView {
    StatusView { text, ..status }
}

/// Selects the match before the selected one.
fn go_before(status: &Status, text: String, cursor: usize, strict: bool) -> (r: Moved)
    ensures
        r@ == select_before(with_text(status@, text@), cursor as int, strict),
{
    match search(&status.matches, &status.selected) {
        Some(n) => {
            if n == 0 {
                Moved::Stop(
                    if strict {
                        Outcome::Fault
                    } else {
                        Outcome::Ignore
                    },
                )
            } else if n - 1 < status.matches.len() {
                Moved::Go(text, cursor, status.matches[n - 1].clone(), status.page)
            } else {
                Moved::Stop(Outcome::Fault)
            }
        },
        None => {
            if strict {
                Moved::Go(text, cursor, String::new(), status.page)
            } else {
                Moved::Stop(Outcome::Ignore)
            }
        },
    }
}

/// Selects the match behind the selected one.
fn go_behind(status: &Status, text: String, cursor: usize) -> (r: Moved)
    ensures
        r@ == select_behind(with_text(status@, text@), cursor as int),
{
    match search(&status.matches, &status.selected) {
        Some(n) => {
            if status.matches.len() == 0 {
                Moved::Stop(Outcome::Fault)
            } else if n < status.matches.len() - 1 {
                Moved::Go(text, cursor, status.matches[n + 1].clone(), status.page)
            } else {
                Moved::Stop(Outcome::Ignore)
            }
        },
        None => Moved::Stop(Outcome::Ignore),
    }
}

/// What the key `key` does with the menu in state `status`, its text
/// being `text`, and the cursor at byte `cursor`.
fn move_by(status: &Status, text: String, cursor: usize, key: Key, press: &Press) -> (r: Moved)
    ensures
        r@ == moved(with_text(status@, text@), cursor as int, key, *press),
{
    let len = byte_length(&text);
    match key {
        Key::Delete => {
            if len >= cursor {
                match remove_at(&text, cursor) {
                    Some((rest, _)) => Moved::Go(rest, cursor, status.selected.clone(), status.page),
                    None => Moved::Stop(Outcome::Fault),
                }
            } else {
                Moved::Go(text, cursor, status.selected.clone(), status.page)
            }
        },
        Key::BackSpace => {
            if cursor > 0 && len > 0 {
                match remove_at(&text, cursor - 1) {
                    Some((rest, _)) => Moved::Go(
                        rest,
                        cursor - 1,
                        status.selected.clone(),
                        status.page,
                    ),
                    None => Moved::Stop(Outcome::Fault),
                }
            } else {
                Moved::Go(text, cursor, status.selected.clone(), status.page)
            }
        },
        Key::End => {
            if cursor < len {
                Moved::Go(text, len, status.selected.clone(), status.page)
            } else {
                Moved::Go(text, cursor, last_of(&status.matches), status.page)
            }
        },
        Key::Escape => Moved::Stop(Outcome::Quit),
        Key::Home => {
            let first = first_of(&status.matches);
            if status.selected == first {
                Moved::Go(text, 0, status.selected.clone(), status.page)
            } else {
                Moved::Go(text, cursor, first, status.page)
            }
        },
        Key::Left => {
            let first = first_of(&status.matches);
            if status.selected == first {
                let at = if cursor > 0 {
                    cursor - 1
                } else {
                    cursor
                };
                Moved::Go(text, at, status.selected.clone(), status.page)
            } else if status.settings.lines == 0 {
                go_before(status, text, cursor, true)
            } else {
                Moved::Go(text, cursor, status.selected.clone(), status.page)
            }
        },
        Key::Up => go_before(status, text, cursor, false),
        Key::Next => {
            if status.page == u32::MAX {
                Moved::Stop(Outcome::Fault)
            } else {
                Moved::Go(text, cursor, status.selected.clone(), status.page + 1)
            }
        },
        Key::Prior => {
            let page = if status.page > 0 {
                status.page - 1
            } else {
                status.page
            };
            Moved::Go(text, cursor, status.selected.clone(), page)
        },
        Key::Return | Key::KpEnter => {
            if press.shift || status.selected.as_str().is_empty() {
                Moved::Stop(Outcome::Print(text))
            } else {
                Moved::Stop(Outcome::Print(status.selected.clone()))
            }
        },
        Key::Right => {
            if cursor < len {
                Moved::Go(text, cursor + 1, status.selected.clone(), status.page)
            } else {
                go_behind(status, text, cursor)
            }
        },
        Key::Down => go_behind(status, text, cursor),
        Key::Tab => {
            if !status.selected.as_str().is_empty() {
                let at = byte_length(&status.selected);
                Moved::Go(status.selected.clone(), at, status.selected.clone(), status.page)
            } else {
                Moved::Go(text, cursor, status.selected.clone(), status.page)
            }
        },
        _ => {
            if press.printable {
                match insert_at(&text, cursor, press.typed) {
                    Some(longer) => {
                        if cursor < usize::MAX {
                            Moved::Go(longer, cursor + 1, status.selected.clone(), status.page)
                        } else {
                            Moved::Stop(Outcome::Fault)
                        }
                    },
                    None => Moved::Stop(Outcome::Fault),
                }
            } else {
                Moved::Go(text, cursor, status.selected.clone(), status.page)
            }
        },
    }
}

/// Whether `wanted` is one of `list`.
fn holds(list: &Vec<String>, wanted: &String) -> (r: bool)
    ensures
        r == list.deep_view().contains(wanted@),
{
    let mut k: usize = 0;
    while k < list.len()
        invariant
            0 <= k <= list.len(),
            forall|p: int| 0 <= p < k ==> list.deep_view()[p] != wanted@,
        decreases list.len() - k,
    {
        if list[k] == *wanted {
            proof {
                assert(list.deep_view()[k as int] == wanted@);
            }
            return true;
        }
        k = k + 1;
    }
    false
}

/// The matches for `text` by the matcher that `name` names.
pub fn find_matches(name: &String, text: &String, items: &Vec<String>) -> (found: Vec<String>)
    ensures
        found.deep_view() == matches_for(name@, text@, items.deep_view()),
{
    if *name == String::from_str("fuzzy") {
        fuzzy_match(text, items)
    } else if *name == String::from_str("dmenu") {
        dmenu_match(text, items)
    } else if *name == String::from_str("recursive") {
        alignment_match(text, items)
    } else {
        simple_match(text, items)
    }
}

/// Takes the menu to the state after a move.
fn settle(status: &mut Status, text: String, selected: String, page: u32)
    ensures
        final(status)@ == settled(old(status)@, text@, selected@, page),
{
    if text == status.text {
        status.selected = selected;
        status.page = page;
    } else {
        let matches = find_matches(&status.settings.matcher, &text, &status.items);
        status.selected = if holds(&matches, &selected) {
            selected
        } else {
            first_of(&matches)
        };
        status.text = text;
        status.matches = matches;
        status.page = 0;
    }
}

/// Carries out a key press: the state and the cursor are taken to what
/// they are after it, and the result says what is to be done next. Only a
/// press that ends in a new drawing changes the state and the cursor.
pub fn keypress(status: &mut Status, cursor: &mut usize, press: &Press) -> (outcome: Outcome)
    ensures
        (outcome@, final(status)@, *final(cursor) as int) == step(
            old(status)@,
            *old(cursor) as int,
            *press,
        ),
{
    match remap(press) {
        None => Outcome::Ignore,
        Some(key) => match cut(&status.text, *cursor, press) {
            None => Outcome::Fault,
            Some((text, at)) => match move_by(status, text, at, key, press) {
                Moved::Stop(outcome) => outcome,
                Moved::Go(text, at, selected, page) => {
                    settle(status, text, selected, page);
                    *cursor = at;
                    Outcome::Redraw
                },
            },
        },
    }
}

/// The state in which the menu starts: nothing typed, every match for the
/// empty text, the first of them selected, the first page shown.
pub open spec fn start_of(items: Seq<Seq<char>>, settings: SettingsView) -> StatusView {
    let matches = matches_for(settings.matcher, Seq::empty(), items);
    StatusView {
        text: Seq::empty(),
        matches,
        items,
        selected: first_or_empty(matches),
        page: 0,
        settings,
    }
}

impl Status {
    /// The state in which the menu starts.
    pub fn start(items: Vec<String>, settings: Settings) -> (status: Status)
        ensures
            status@ == start_of(items.deep_view(), settings@),
    {
        let text = String::new();
        let matches = find_matches(&settings.matcher, &text, &items);
        let selected = first_of(&matches);
        Status { text, matches, items, selected, page: 0, settings }
    }
}

} // verus!
