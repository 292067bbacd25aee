//! The interactive result browser, without its terminal: what each key does, and what the lines on
//! screen say.
use crate::actions::dir_of;
use crate::fusion::ResultKind;
use crate::path;
use crate::search::{Request, SearchResult};
use crate::text;
use vstd::prelude::*;

verus! {

/// How long a transient status message stays on screen, in seconds.
pub const STATUS_TTL_SECS: u64 = 4;

/// The name proposed for a saved result list.
pub const SAVE_NAME: &'static str = "wom-results.txt";

/// A key.
#[derive(Debug, Clone, Copy, PartialEq, Eq, Structural)]
pub enum Key {
    Char(char),
    Enter,
    Esc,
    Backspace,
    Up,
    Down,
    PageUp,
    PageDown,
    Home,
    End,
    Other,
}

/// A key press.
#[derive(Debug, Clone, Copy, PartialEq, Eq, Structural)]
pub struct Press {
    pub key: Key,
    pub ctrl: bool,
}

/// What a key press asks for.
#[derive(Debug, Clone)]
pub enum Action {
    Nothing,
    Quit,
    /// Run the search again. Reranking is worth its cost on a committed query, not on every
    /// keystroke while the query is still being typed.
    Search { rerank: bool },
    /// Leave the screen, edit the file, then come back.
    Edit { path: String },
    /// Open a terminal in the directory.
    Terminal { dir: String },
    /// Hand the path to the desktop.
    Desktop { path: String },
    /// Copy the text.
    Copy { text: String },
    /// Write the result list.
    Save { path: String, query: String },
}

/// What a key press asks for, as plain values.
pub enum ActionView {
    Nothing,
    Quit,
    Search { rerank: bool },
    Edit { path: Seq<char> },
    Terminal { dir: Seq<char> },
    Desktop { path: Seq<char> },
    Copy { text: Seq<char> },
    Save { path: Seq<char>, query: Seq<char> },
}

impl View for Action {
    type V = ActionView;

    open spec fn view(&self) -> ActionView {
        match *self {
            Action::Nothing => ActionView::Nothing,
            Action::Quit => ActionView::Quit,
            Action::Search { rerank } => ActionView::Search { rerank },
            Action::Edit { path } => ActionView::Edit { path: path@ },
            Action::Terminal { dir } => ActionView::Terminal { dir: dir@ },
            Action::Desktop { path } => ActionView::Desktop { path: path@ },
            Action::Copy { text } => ActionView::Copy { text: text@ },
            Action::Save { path, query } => ActionView::Save { path: path@, query: query@ },
        }
    }
}

/// The state of the browser.
pub struct Browser {
    /// The resolved request. Only its text is ever edited; every other parameter the user asked for
    /// stays.
    pub req: Request,
    pub results: Vec<SearchResult>,
    pub selected: Option<usize>,
    /// Editing the query in place.
    pub editing: bool,
    /// Prompting for a file name.
    pub saving: Option<String>,
    pub show_scores: bool,
}

/// The part of the state that keys act on, as plain values.
pub struct BrowserView {
    pub text: Seq<char>,
    pub results: Seq<SearchResult>,
    pub selected: Option<usize>,
    pub editing: bool,
    pub saving: Option<Seq<char>>,
    pub show_scores: bool,
}

impl View for Browser {
    type V = BrowserView;

    open spec fn view(&self) -> BrowserView {
        BrowserView {
            text: self.req.text@,
            results: self.results@,
            selected: self.selected,
            editing: self.editing,
            saving: match self.saving {
                Some(s) => Some(s@),
                None => None,
            },
            show_scores: self.show_scores,
        }
    }
}

/// `s` without its last character.
pub open spec fn shortened(s: Seq<char>) -> Seq<char> {
    if s.len() > 0 {
        s.drop_last()
    } else {
        s
    }
}

fn pop(s: &mut String)
    ensures
        final(s)@ == shortened(old(s)@),
{
    let cs = text::chars_of(s.as_str());
    let n: usize = cs.len();
    if n > 0 {
        let r = text::from_chars(&cs[0..n - 1]);
        proof {
            assert(r@ =~= s@.drop_last());
        }
        *s = r;
    }
}

/// The selection `delta` further, clamped rather than wrapped: wrapping from the last result back
/// to the first makes it easy to lose your place in a long list.
pub open spec fn moved(v: BrowserView, delta: int) -> BrowserView {
    if v.results.len() == 0 {
        v
    } else {
        let cur = match v.selected {
            Some(i) => i as int,
            None => 0,
        };
        let next = cur + delta;
        let last = v.results.len() - 1;
        BrowserView {
            selected: Some(
                (if next < 0 {
                    0
                } else if next > last {
                    last
                } else {
                    next
                }) as usize,
            ),
            ..v
        }
    }
}

/// The selected result, if there is one.
pub open spec fn chosen(v: BrowserView) -> Option<SearchResult> {
    match v.selected {
        Some(i) => if i < v.results.len() {
            Some(v.results[i as int])
        } else {
            None
        },
        None => None,
    }
}

/// The directory that a result refers to.
pub open spec fn directory(r: SearchResult) -> Seq<char> {
    match r.kind {
        ResultKind::Dir => r.path@,
        ResultKind::File => match path::parent_of(r.path@) {
            Some(p) => p,
            None => "/"@,
        },
    }
}

/// What a key does while the query is edited.
pub open spec fn edited(v: BrowserView, key: Key) -> (BrowserView, ActionView) {
    match key {
        Key::Esc => (BrowserView { editing: false, ..v }, ActionView::Nothing),
        Key::Enter => (BrowserView { editing: false, ..v }, ActionView::Search { rerank: true }),
        Key::Backspace => (
            BrowserView { text: shortened(v.text), ..v },
            ActionView::Search { rerank: false },
        ),
        Key::Char(c) => (
            BrowserView { text: v.text.push(c), ..v },
            ActionView::Search { rerank: false },
        ),
        _ => (v, ActionView::Nothing),
    }
}

/// What a key does while a file name is asked for.
pub open spec fn named(v: BrowserView, name: Seq<char>, key: Key) -> (BrowserView, ActionView) {
    match key {
        Key::Esc => (BrowserView { saving: None, ..v }, ActionView::Nothing),
        Key::Backspace => (
            BrowserView { saving: Some(shortened(name)), ..v },
            ActionView::Nothing,
        ),
        Key::Char(c) => (BrowserView { saving: Some(name.push(c)), ..v }, ActionView::Nothing),
        Key::Enter => (
            BrowserView { saving: None, ..v },
            ActionView::Save { path: name, query: v.text },
        ),
        _ => (v, ActionView::Nothing),
    }
}

/// What a letter does in the list.
pub open spec fn lettered(v: BrowserView, c: char, ctrl: bool) -> (BrowserView, ActionView) {
    if c == 'Z' || c == 'q' || (c == 'c' && ctrl) {
        (v, ActionView::Quit)
    } else if c == 'j' {
        (moved(v, 1), ActionView::Nothing)
    } else if c == 'k' {
        (moved(v, -1), ActionView::Nothing)
    } else if c == 's' {
        (BrowserView { saving: Some(SAVE_NAME@), ..v }, ActionView::Nothing)
    } else if c == '/' {
        (BrowserView { editing: true, ..v }, ActionView::Nothing)
    } else if c == 'S' {
        (BrowserView { show_scores: !v.show_scores, ..v }, ActionView::Nothing)
    } else {
        (
            v,
            match chosen(v) {
                None => ActionView::Nothing,
                Some(r) => if c == 'd' {
                    ActionView::Terminal { dir: directory(r) }
                } else if c == 'e' {
                    ActionView::Edit { path: r.path@ }
                } else if c == 'x' {
                    ActionView::Desktop { path: r.path@ }
                } else if c == 'y' {
                    ActionView::Copy { text: r.path@ }
                } else {
                    ActionView::Nothing
                },
            },
        )
    }
}

/// What a key does in the list.
pub open spec fn listed(v: BrowserView, p: Press) -> (BrowserView, ActionView) {
    match p.key {
        Key::Char(c) => lettered(v, c, p.ctrl),
        Key::Esc => (v, ActionView::Quit),
        Key::Down => (moved(v, 1), ActionView::Nothing),
        Key::Up => (moved(v, -1), ActionView::Nothing),
        Key::PageDown => (moved(v, 10), ActionView::Nothing),
        Key::PageUp => (moved(v, -10), ActionView::Nothing),
        Key::Home => (BrowserView { selected: Some(0), ..v }, ActionView::Nothing),
        Key::End => if v.results.len() > 0 {
            (
                BrowserView { selected: Some((v.results.len() - 1) as usize), ..v },
                ActionView::Nothing,
            )
        } else {
            (v, ActionView::Nothing)
        },
        Key::Enter => (
            v,
            match chosen(v) {
                None => ActionView::Nothing,
                Some(r) => match r.kind {
                    ResultKind::File => ActionView::Edit { path: r.path@ },
                    ResultKind::Dir => ActionView::Terminal { dir: r.path@ },
                },
            },
        ),
        _ => (v, ActionView::Nothing),
    }
}

/// What a key press does. While typing, most keys are text.
pub open spec fn pressed(v: BrowserView, p: Press) -> (BrowserView, ActionView) {
    if v.editing {
        edited(v, p.key)
    } else {
        match v.saving {
            Some(name) => named(v, name, p.key),
            None => listed(v, p),
        }
    }
}

impl Browser {
    /// Opens on a result list, with the first result selected.
    pub fn new(req: Request, results: Vec<SearchResult>) -> (r: Self)
        ensures
            r.req == req,
            r@ == (BrowserView {
                text: req.text@,
                results: results@,
                selected: if results@.len() > 0 {
                    Some(0usize)
                } else {
                    None
                },
                editing: false,
                saving: None,
                show_scores: false,
            }),
    {
        let selected = if results.len() > 0 {
            Some(0)
        } else {
            None
        };
        Browser { req, results, selected, editing: false, saving: None, show_scores: false }
    }

    /// The selected result, if there is one.
    pub fn selection(&self) -> (r: Option<&SearchResult>)
        ensures
            match r {
                Some(x) => chosen(self@) == Some(*x),
                None => chosen(self@) is None,
            },
    {
        match self.selected {
            Some(i) => if i < self.results.len() {
                Some(&self.results[i])
            } else {
                None
            },
            None => None,
        }
    }

    /// Takes in the results of a search, selecting the first.
    pub fn show(&mut self, results: Vec<SearchResult>)
        ensures
            final(self).req == old(self).req,
            final(self)@ == (BrowserView {
                results: results@,
                selected: if results@.len() > 0 {
                    Some(0usize)
                } else {
                    None
                },
                ..old(self)@
            }),
    {
        self.selected = if results.len() > 0 {
            Some(0)
        } else {
            None
        };
        self.results = results;
    }

    fn step(&mut self, up: bool, by: usize)
        ensures
            final(self).req == old(self).req,
            final(self)@ == moved(
                old(self)@,
                if up {
                    -(by as int)
                } else {
                    by as int
                },
            ),
    {
        let n: usize = self.results.len();
        if n == 0 {
            return ;
        }
        let cur: usize = match self.selected {
            Some(i) => i,
            None => 0,
        };
        let last: usize = n - 1;
        let next: usize = if up {
            if cur < by {
                0
            } else if cur - by > last {
                last
            } else {
                cur - by
            }
        } else if cur > last || by > last - cur {
            last
        } else {
            cur + by
        };
        self.selected = Some(next);
    }

    /// Whether all that was asked for but the text is kept.
    pub open spec fn same_request(a: Request, b: Request) -> bool {
        &&& a.scope == b.scope
        &&& a.limit == b.limit
        &&& a.mode == b.mode
        &&& a.min_similarity == b.min_similarity
    }

    /// Handles a key press.
    pub fn handle_key(&mut self, p: Press) -> (r: Action)
        ensures
            final(self)@ == pressed(old(self)@, p).0,
            r@ == pressed(old(self)@, p).1,
            Self::same_request(final(self).req, old(self).req),
    {
        if self.editing {
            return self.handle_edit_key(p.key);
        }
        if self.saving.is_some() {
            return self.handle_save_key(p.key);
        }
        self.handle_list_key(p)
    }

    fn handle_edit_key(&mut self, key: Key) -> (r: Action)
        ensures
            final(self)@ == edited(old(self)@, key).0,
            r@ == edited(old(self)@, key).1,
            Self::same_request(final(self).req, old(self).req),
    {
        match key {
            Key::Esc => {
                self.editing = false;
                Action::Nothing
            },
            Key::Enter => {
                self.editing = false;
                Action::Search { rerank: true }
            },
            Key::Backspace => {
                let mut t = self.req.text.as_str().to_owned();
                pop(&mut t);
                self.req.text = t;
                Action::Search { rerank: false }
            },
            Key::Char(c) => {
                let mut t = self.req.text.as_str().to_owned();
                t.push(c);
                self.req.text = t;
                Action::Search { rerank: false }
            },
            _ => Action::Nothing,
        }
    }

    fn handle_save_key(&mut self, key: Key) -> (r: Action)
        requires
            old(self).saving is Some,
        ensures
            final(self)@ == named(old(self)@, old(self)@.saving->0, key).0,
            r@ == named(old(self)@, old(self)@.saving->0, key).1,
            Self::same_request(final(self).req, old(self).req),
    {
        let mut name = match &self.saving {
            Some(n) => n.as_str().to_owned(),
            None => String::new(),
        };
        match key {
            Key::Esc => {
                self.saving = None;
                Action::Nothing
            },
            Key::Backspace => {
                pop(&mut name);
                self.saving = Some(name);
                Action::Nothing
            },
            Key::Char(c) => {
                name.push(c);
                self.saving = Some(name);
                Action::Nothing
            },
            Key::Enter => {
                self.saving = None;
                Action::Save { path: name, query: self.req.text.as_str().to_owned() }
            },
            _ => Action::Nothing,
        }
    }

    fn handle_letter(&mut self, c: char, ctrl: bool) -> (r: Action)
        ensures
            final(self)@ == lettered(old(self)@, c, ctrl).0,
            r@ == lettered(old(self)@, c, ctrl).1,
            Self::same_request(final(self).req, old(self).req),
    {
        if c == 'Z' || c == 'q' || (c == 'c' && ctrl) {
            return Action::Quit;
        }
        if c == 'j' {
            self.step(false, 1);
            return Action::Nothing;
        }
        if c == 'k' {
            self.step(true, 1);
            return Action::Nothing;
        }
        if c == 's' {
            self.saving = Some(SAVE_NAME.to_owned());
            return Action::Nothing;
        }
        if c == '/' {
            self.editing = true;
            return Action::Nothing;
        }
        if c == 'S' {
            self.show_scores = !self.show_scores;
            return Action::Nothing;
        }
        match self.selection() {
            None => Action::Nothing,
            Some(r) => {
                if c == 'd' {
                    Action::Terminal { dir: dir_of(r) }
                } else if c == 'e' {
                    Action::Edit { path: r.path.as_str().to_owned() }
                } else if c == 'x' {
                    Action::Desktop { path: r.path.as_str().to_owned() }
                } else if c == 'y' {
                    Action::Copy { text: r.path.as_str().to_owned() }
                } else {
                    Action::Nothing
                }
            },
        }
    }

    fn handle_list_key(&mut self, p: Press) -> (r: Action)
        ensures
            final(self)@ == listed(old(self)@, p).0,
            r@ == listed(old(self)@, p).1,
            Self::same_request(final(self).req, old(self).req),
    {
        match p.key {
            Key::Char(c) => self.handle_letter(c, p.ctrl),
            Key::Esc => Action::Quit,
            Key::Down => {
                self.step(false, 1);
                Action::Nothing
            },
            Key::Up => {
                self.step(true, 1);
                Action::Nothing
            },
            Key::PageDown => {
                self.step(false, 10);
                Action::Nothing
            },
            Key::PageUp => {
                self.step(true, 10);
                Action::Nothing
            },
            Key::Home => {
                self.selected = Some(0);
                Action::Nothing
            },
            Key::End => {
                if self.results.len() > 0 {
                    self.selected = Some(self.results.len() - 1);
                }
                Action::Nothing
            },
            Key::Enter => {
                match self.selection() {
                    None => Action::Nothing,
                    Some(r) => match r.kind {
                        ResultKind::File => Action::Edit { path: r.path.as_str().to_owned() },
                        ResultKind::Dir => Action::Terminal { dir: r.path.as_str().to_owned() },
                    },
                }
            },
            _ => Action::Nothing,
        }
    }
}

/// Moving never leaves the list: with results, something is selected afterwards, and it is one of
/// them.
pub proof fn moving_stays_in_the_list(v: BrowserView, delta: int)
    requires
        0 < v.results.len() <= usize::MAX,
    ensures
        chosen(moved(v, delta)) is Some,
{
}

/// A key pressed while the query is edited, or while a file name is asked for, quits nothing and
/// opens nothing.
pub proof fn typing_opens_nothing(v: BrowserView, p: Press)
    requires
        v.editing || v.saving is Some,
    ensures
        match pressed(v, p).1 {
            ActionView::Nothing => true,
            ActionView::Search { .. } => true,
            ActionView::Save { .. } => true,
            _ => false,
        },
{
}

/// Reranking runs on a committed query only.
pub proof fn only_a_committed_query_is_reranked(v: BrowserView, p: Press)
    requires
        pressed(v, p).1 == (ActionView::Search { rerank: true }),
    ensures
        v.editing,
        p.key == Key::Enter,
        !pressed(v, p).0.editing,
{
}

/// Typing puts a character at the end of the text, and deleting takes it away again, in the query
/// and in the name of a file alike; every change of the query searches again.
pub proof fn deleting_undoes_typing(v: BrowserView, c: char, ctrl: bool)
    requires
        v.editing || v.saving is Some,
    ensures
        ({
            let typed = pressed(v, Press { key: Key::Char(c), ctrl }).0;
            let back = pressed(typed, Press { key: Key::Backspace, ctrl }).0;
            let again = pressed(v, Press { key: Key::Char(c), ctrl }).1;
            &&& back == v
            &&& v.editing ==> typed.text == v.text + seq![c] && typed.saving == v.saving && again == (
            ActionView::Search { rerank: false })
            &&& !v.editing ==> typed.text == v.text && typed.saving == Some(v.saving->0 + seq![c])
                && again == ActionView::Nothing
        }),
{
    let typed = pressed(v, Press { key: Key::Char(c), ctrl }).0;
    if v.editing {
        assert(v.text.push(c).drop_last() =~= v.text);
        assert(v.text.push(c) =~= v.text + seq![c]);
    } else {
        let n = v.saving->0;
        assert(n.push(c).drop_last() =~= n);
        assert(n.push(c) =~= n + seq![c]);
    }
}

/// Deleting from nothing leaves nothing, and deleting takes one character only.
pub proof fn deleting_takes_the_last_character(v: BrowserView, ctrl: bool)
    requires
        v.editing,
    ensures
        ({
            let after = pressed(v, Press { key: Key::Backspace, ctrl });
            &&& v.text.len() == 0 ==> after.0 == v
            &&& v.text.len() > 0 ==> after.0.text == v.text.take(v.text.len() - 1)
            &&& after.1 == (ActionView::Search { rerank: false })
        }),
{
    if v.text.len() > 0 {
        assert(v.text.drop_last() =~= v.text.take(v.text.len() - 1));
    }
}

/// Leaving the query with Enter searches for it, and with Esc does not; leaving the file name with
/// Enter saves under that name, and with Esc does not. The text stays what it was.
pub proof fn enter_commits_and_escape_does_not(v: BrowserView, ctrl: bool)
    ensures
        ({
            let enter = pressed(v, Press { key: Key::Enter, ctrl });
            let esc = pressed(v, Press { key: Key::Esc, ctrl });
            &&& v.editing ==> {
                &&& enter.1 == (ActionView::Search { rerank: true })
                &&& esc.1 == ActionView::Nothing
                &&& enter.0 == (BrowserView { editing: false, ..v })
                &&& esc.0 == (BrowserView { editing: false, ..v })
            }
            &&& !v.editing && v.saving is Some ==> {
                &&& enter.1 == (ActionView::Save { path: v.saving->0, query: v.text })
                &&& esc.1 == ActionView::Nothing
                &&& enter.0 == (BrowserView { saving: None, ..v })
                &&& esc.0 == (BrowserView { saving: None, ..v })
            }
            &&& !v.editing && v.saving is None ==> esc == (v, ActionView::Quit)
        }),
{
}

/// In the list one step down goes to the next result and one step up to the one before it; ten
/// steps go as far as the list does; and the ends of the list are its first and last result.
pub proof fn steps_go_to_the_neighbours(v: BrowserView, i: int, ctrl: bool)
    requires
        !v.editing,
        v.saving is None,
        v.results.len() <= usize::MAX,
        0 <= i < v.results.len(),
        v.selected == Some(i as usize),
    ensures
        ({
            let last = v.results.len() - 1;
            let at = |k: Key| pressed(v, Press { key: k, ctrl }).0.selected;
            &&& i < last ==> at(Key::Down) == Some((i + 1) as usize)
            &&& i == last ==> at(Key::Down) == Some(i as usize)
            &&& i > 0 ==> at(Key::Up) == Some((i - 1) as usize)
            &&& i == 0 ==> at(Key::Up) == Some(i as usize)
            &&& at(Key::Char('j')) == at(Key::Down)
            &&& at(Key::Char('k')) == at(Key::Up)
            &&& i + 10 <= last ==> at(Key::PageDown) == Some((i + 10) as usize)
            &&& i + 10 > last ==> at(Key::PageDown) == Some(last as usize)
            &&& i >= 10 ==> at(Key::PageUp) == Some((i - 10) as usize)
            &&& i < 10 ==> at(Key::PageUp) == Some(0usize)
            &&& at(Key::Home) == Some(0usize)
            &&& at(Key::End) == Some(last as usize)
        }),
{
}

/// What is asked of the selected result: Enter edits a file and opens a terminal in a directory;
/// `e` edits, `x` hands the path to the desktop, `y` copies it, and `d` opens a terminal where it
/// is.
pub proof fn keys_act_on_the_selected_result(v: BrowserView, i: int)
    requires
        !v.editing,
        v.saving is None,
        0 <= i < v.results.len() <= usize::MAX,
        v.selected == Some(i as usize),
    ensures
        ({
            let r = v.results[i];
            let asks = |k: Key| pressed(v, Press { key: k, ctrl: false }).1;
            &&& r.kind == ResultKind::File ==> asks(Key::Enter) == (ActionView::Edit {
                path: r.path@,
            })
            &&& r.kind == ResultKind::Dir ==> asks(Key::Enter) == (ActionView::Terminal {
                dir: r.path@,
            })
            &&& asks(Key::Char('e')) == (ActionView::Edit { path: r.path@ })
            &&& asks(Key::Char('x')) == (ActionView::Desktop { path: r.path@ })
            &&& asks(Key::Char('y')) == (ActionView::Copy { text: r.path@ })
            &&& r.kind == ResultKind::Dir ==> asks(Key::Char('d')) == (ActionView::Terminal {
                dir: r.path@,
            })
            &&& r.kind == ResultKind::File && path::parent_of(r.path@) is Some ==> asks(
                Key::Char('d'),
            ) == (ActionView::Terminal { dir: path::parent_of(r.path@)->0 })
            &&& r.kind == ResultKind::File && path::parent_of(r.path@) is None ==> asks(
                Key::Char('d'),
            ) == (ActionView::Terminal { dir: "/"@ })
        }),
{
}

/// In the list `q` and `Z` quit, and `c` with control; `/` begins to edit the query, `s` to name a
/// file, and `S` shows or hides the scores.
pub proof fn letters_change_the_mode(v: BrowserView, ctrl: bool)
    requires
        !v.editing,
        v.saving is None,
    ensures
        ({
            let on = |c: char, ctrl: bool| pressed(v, Press { key: Key::Char(c), ctrl });
            &&& on('q', ctrl) == (v, ActionView::Quit)
            &&& on('Z', ctrl) == (v, ActionView::Quit)
            &&& on('c', true) == (v, ActionView::Quit)
            &&& on('c', false).1 != ActionView::Quit
            &&& on('/', ctrl) == (BrowserView { editing: true, ..v }, ActionView::Nothing)
            &&& on('s', ctrl) == (
                BrowserView { saving: Some("wom-results.txt"@), ..v },
                ActionView::Nothing,
            )
            &&& on('S', ctrl) == (
                BrowserView { show_scores: !v.show_scores, ..v },
                ActionView::Nothing,
            )
        }),
{
}

/// A key changes only what it is for: never the results; the query only while it is edited; the
/// selection, and whether scores are shown, only in the list.
pub proof fn a_key_changes_only_what_it_is_for(v: BrowserView, p: Press)
    ensures
        ({
            let w = pressed(v, p).0;
            &&& w.results == v.results
            &&& !v.editing ==> w.text == v.text
            &&& v.editing ==> w.saving == v.saving
            &&& v.editing || v.saving is Some ==> w.selected == v.selected && w.show_scores
                == v.show_scores
            &&& pressed(v, p).1 == ActionView::Quit ==> w == v
        }),
{
}

/// A notice stays for four seconds.
pub proof fn a_notice_stays_for_four_seconds()
    ensures
        STATUS_TTL_SECS == 4,
{
}

/// The selected result is the one at the selected place, if there is one; and no key changes what
/// was asked for but its text.
pub proof fn the_selected_result_is_the_one_at_its_place(
    v: BrowserView,
    i: usize,
    a: Request,
    b: Request,
)
    ensures
        v.selected == Some(i) && i < v.results.len() ==> chosen(v) == Some(v.results[i as int]),
        v.selected == Some(i) && i >= v.results.len() ==> chosen(v) is None,
        v.selected is None ==> chosen(v) is None,
        Browser::same_request(a, b) ==> a == (Request { text: a.text, ..b }),
{
}

} // verus!
