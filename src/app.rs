//! The picker's state: the input box, the active query, the highlighted entry
//! and the mode, with the transitions that key presses make.

use vstd::prelude::*;
use vstd::arithmetic::div_mod::{lemma_mod_add_multiples_vanish, lemma_mod_self_0, lemma_small_mod};
use crate::filter::{filter_history, filter_results};
use crate::text::{chars_of, string_of, string_views};

verus! {

/// Which keys act on the query and which on the selection.
#[derive(Clone, Copy, Debug, PartialEq, Eq, Structural)]
pub enum InputMode {
    /// Browsing the result list: keys move the selection, commit or quit.
    Normal,
    /// Editing the query: keys change the input box.
    Editing,
}

/// A key press, as the picker tells keys apart.
#[derive(Clone, Copy, Debug, PartialEq, Eq, Structural)]
pub enum Key {
    Char(char),
    Backspace,
    Enter,
    Up,
    Down,
    /// Any key that the picker ignores.
    Other,
}

/// What the loop does after a key press.
#[derive(Clone, Copy, Debug, PartialEq, Eq, Structural)]
pub enum Outcome {
    /// Keep going: redraw and read the next key.
    Continue,
    /// Stop with no output.
    Quit,
    /// Stop; the output is in `selected_cmd`.
    Commit,
}

/// App holds the state of the application
pub struct App {
    /// Current value of the input box
    pub input: String,
    /// Current input mode
    pub input_mode: InputMode,
    /// Selected command from history
    pub selected_cmd: String,
    /// The query that filters the history
    pub query: String,
    /// Index of the highlighted entry of the result list
    pub selected: usize,
}

/// The state of an [`App`] as plain values.
pub struct AppView {
    pub input: Seq<char>,
    pub input_mode: InputMode,
    pub selected_cmd: Seq<char>,
    pub query: Seq<char>,
    pub selected: nat,
}

impl View for App {
    type V = AppView;

    open spec fn view(&self) -> AppView {
        AppView {
            input: self.input@,
            input_mode: self.input_mode,
            selected_cmd: self.selected_cmd@,
            query: self.query@,
            selected: self.selected as nat,
        }
    }
}

/// The index after "move down" in a list of `n` entries: the next one, wrapping
/// from the last (or from beyond the end) to the first.
pub open spec fn step_down(i: int, n: int) -> int {
    if i + 1 >= n {
        0
    } else {
        i + 1
    }
}

/// The index after "move up" in a list of `n` entries: the previous one,
/// wrapping from the first (or from beyond the end) to the last.
pub open spec fn step_up(i: int, n: int) -> int {
    if i == 0 || i >= n {
        n - 1
    } else {
        i - 1
    }
}

/// The index after `k` presses of "move down" from `i`.
pub open spec fn down_times(i: int, n: int, k: nat) -> int
    decreases k,
{
    if k == 0 {
        i
    } else {
        step_down(down_times(i, n, (k - 1) as nat), n)
    }
}

/// The output of a commit at index `i`: the entry there, or nothing where the
/// list has no such entry.
pub open spec fn selection_output(results: Seq<Seq<char>>, i: int) -> Seq<char> {
    if 0 <= i < results.len() {
        results[i]
    } else {
        Seq::empty()
    }
}

/// The state and outcome after `key` is pressed in state `v`, with `results` on
/// screen.
pub open spec fn next_state(v: AppView, key: Key, results: Seq<Seq<char>>) -> (AppView, Outcome) {
    let n = results.len() as int;
    match v.input_mode {
        InputMode::Normal => match key {
            Key::Char(c) => if c == 'e' {
                (AppView { input_mode: InputMode::Editing, ..v }, Outcome::Continue)
            } else if c == 'q' {
                (AppView { selected_cmd: Seq::empty(), ..v }, Outcome::Quit)
            } else {
                (v, Outcome::Continue)
            },
            Key::Down => if n == 0 {
                (v, Outcome::Continue)
            } else {
                (AppView { selected: step_down(v.selected as int, n) as nat, ..v }, Outcome::Continue)
            },
            Key::Up => if n == 0 {
                (v, Outcome::Continue)
            } else {
                (AppView { selected: step_up(v.selected as int, n) as nat, ..v }, Outcome::Continue)
            },
            Key::Enter => (
                AppView { selected_cmd: selection_output(results, v.selected as int), ..v },
                Outcome::Commit,
            ),
            _ => (v, Outcome::Continue),
        },
        InputMode::Editing => match key {
            Key::Char(c) => {
                let input = v.input.push(c);
                (AppView { input: input, query: input, selected: 0, ..v }, Outcome::Continue)
            },
            Key::Backspace => {
                let input = if v.input.len() > 0 {
                    v.input.drop_last()
                } else {
                    v.input
                };
                (AppView { input: input, query: input, selected: 0, ..v }, Outcome::Continue)
            },
            Key::Enter => (
                AppView {
                    input_mode: InputMode::Normal,
                    input: Seq::empty(),
                    query: v.input,
                    selected: 0,
                    ..v
                },
                Outcome::Continue,
            ),
            _ => (v, Outcome::Continue),
        },
    }
}

impl Default for App {
    fn default() -> (r: App)
        ensures
            r@.input.len() == 0,
            r@.input_mode == InputMode::Normal,
            r@.selected_cmd.len() == 0,
            r@.query.len() == 0,
            r@.selected == 0,
    {
        App::new()
    }
}

impl App {
    /// The initial state: browsing, with an empty query and the first entry
    /// highlighted.
    pub fn new() -> (r: App)
        ensures
            r@.input.len() == 0,
            r@.input_mode == InputMode::Normal,
            r@.selected_cmd.len() == 0,
            r@.query.len() == 0,
            r@.selected == 0,
    {
        App {
            input: String::new(),
            input_mode: InputMode::Normal,
            selected_cmd: String::new(),
            query: String::new(),
            selected: 0,
        }
    }

    /// The result list of the active query over `history` (oldest line first).
    pub fn results(&self, history: &Vec<String>) -> (r: Vec<String>)
        ensures
            string_views(r@) == filter_results(string_views(history@), self.query@),
    {
        filter_history(history, self.query.as_str())
    }

    /// Moves the selection one entry down in a list of `len` entries, cyclically;
    /// nothing happens in an empty list.
    pub fn move_down(&mut self, len: usize)
        ensures
            len == 0 ==> final(self)@ == old(self)@,
            len > 0 ==> final(self)@ == (AppView {
                selected: step_down(old(self).selected as int, len as int) as nat,
                ..old(self)@
            }),
            len > 0 ==> final(self).selected < len,
            old(self).selected < len ==> final(self).selected == (old(self).selected + 1) % (
            len as int),
            len > 0 && old(self).selected == len - 1 ==> final(self).selected == 0,
    {
        if len > 0 {
            proof {
                if self.selected < len {
                    lemma_mod_self_0(len as int);
                    if self.selected + 1 < len {
                        lemma_small_mod((self.selected + 1) as nat, len as nat);
                    }
                }
            }
            if self.selected >= len - 1 {
                self.selected = 0;
            } else {
                self.selected = self.selected + 1;
            }
        }
    }

    /// Moves the selection one entry up in a list of `len` entries, cyclically;
    /// nothing happens in an empty list.
    pub fn move_up(&mut self, len: usize)
        ensures
            len == 0 ==> final(self)@ == old(self)@,
            len > 0 ==> final(self)@ == (AppView {
                selected: step_up(old(self).selected as int, len as int) as nat,
                ..old(self)@
            }),
            len > 0 ==> final(self).selected < len,
            old(self).selected < len ==> final(self).selected == (old(self).selected + len - 1)
                % (len as int),
            len > 0 && old(self).selected == 0 ==> final(self).selected == len - 1,
    {
        if len > 0 {
            proof {
                if self.selected < len {
                    lemma_small_mod((len - 1) as nat, len as nat);
                    if self.selected > 0 {
                        lemma_mod_adds_len(self.selected - 1, len as int);
                    }
                }
            }
            if self.selected == 0 || self.selected >= len {
                self.selected = len - 1;
            } else {
                self.selected = self.selected - 1;
            }
        }
    }

    /// Takes the highlighted entry of `results` as the output; with no such
    /// entry (an empty list) the output is empty.
    pub fn commit(&mut self, results: &Vec<String>)
        ensures
            final(self)@ == (AppView {
                selected_cmd: selection_output(string_views(results@), old(self).selected as int),
                ..old(self)@
            }),
    {
        if self.selected < results.len() {
            self.selected_cmd = results[self.selected].clone();
        } else {
            self.selected_cmd = String::new();
        }
    }

    /// Applies one key press, with `results` the list on screen.
    pub fn handle_key(&mut self, key: Key, results: &Vec<String>) -> (r: Outcome)
        ensures
            (final(self)@, r) == next_state(old(self)@, key, string_views(results@)),
    {
        match self.input_mode {
            InputMode::Normal => match key {
                Key::Char(c) => {
                    if c == 'e' {
                        self.input_mode = InputMode::Editing;
                        Outcome::Continue
                    } else if c == 'q' {
                        self.selected_cmd = String::new();
                        Outcome::Quit
                    } else {
                        Outcome::Continue
                    }
                },
                Key::Down => {
                    self.move_down(results.len());
                    Outcome::Continue
                },
                Key::Up => {
                    self.move_up(results.len());
                    Outcome::Continue
                },
                Key::Enter => {
                    self.commit(results);
                    Outcome::Commit
                },
                _ => Outcome::Continue,
            },
            InputMode::Editing => match key {
                Key::Char(c) => {
                    let mut cs = chars_of(self.input.as_str());
                    cs.push(c);
                    self.set_input(string_of(&cs));
                    Outcome::Continue
                },
                Key::Backspace => {
                    let mut cs = chars_of(self.input.as_str());
                    if cs.len() > 0 {
                        cs.pop();
                    }
                    self.set_input(string_of(&cs));
                    Outcome::Continue
                },
                Key::Enter => {
                    self.input_mode = InputMode::Normal;
                    self.query = self.input.clone();
                    self.input = String::new();
                    self.selected = 0;
                    Outcome::Continue
                },
                _ => Outcome::Continue,
            },
        }
    }

    /// Puts `s` in the input box and makes it the active query, with the
    /// selection back at the first entry.
    fn set_input(&mut self, s: String)
        ensures
            final(self)@ == (AppView { input: s@, query: s@, selected: 0, ..old(self)@ }),
    {
        self.query = s.clone();
        self.input = s;
        self.selected = 0;
    }
}

proof fn lemma_mod_adds_len(x: int, n: int)
    requires
        0 <= x < n,
    ensures
        (x + n) % n == x,
{
    lemma_mod_add_multiples_vanish(x, n);
    lemma_small_mod(x as nat, n as nat);
}

/// From any entry of a non-empty list, pressing "move down" once per entry
/// comes back to that entry.
pub proof fn lemma_down_cycle(start: int, n: int)
    requires
        0 <= start < n,
    ensures
        down_times(start, n, n as nat) == start,
{
    lemma_down_times(start, n, n as nat);
}

proof fn lemma_down_times(i: int, n: int, k: nat)
    requires
        0 <= i < n,
        k <= n,
    ensures
        down_times(i, n, k) == if i + k < n {
            i + k
        } else {
            i + k - n
        },
    decreases k,
{
    if k > 0 {
        lemma_down_times(i, n, (k - 1) as nat);
    }
}

} // verus!
