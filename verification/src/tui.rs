//! The terminal prompt's state: the line being typed, the query history,
//! the stored matches, and the state machine a key-reading shell drives.
//! Reading keys and drawing the screen stay with the shell; every decision
//! — what a key does to the line, which state follows which, what is saved
//! and what is answered — is taken here.

pub mod history;
pub mod input_line;
pub mod matches;

use crate::aq::{aq_cipher, gematria_m, nummificate, upper_m, upper_str};
use crate::tui::history::History;
use crate::tui::input_line::{backspaced, deleted, inserted, InputLine};
use vstd::prelude::*;

verus! {

/// The states of the prompt's console loop.
#[derive(Debug, Copy, Clone, PartialEq, Eq, Structural)]
pub enum ConsoleState {
    Start,
    Typing,
    HistoryUp,
    HistoryDown,
    Matches,
    Done,
    Quit,
}

/// What one run of the prompt ends with: a finished query, a request to
/// quit, or readiness for more input.
pub enum TuiResult {
    Done(String),
    Quit,
    Ready,
}

/// One key the shell read, reduced to what the prompt reacts to.
#[derive(Debug, Copy, Clone, PartialEq, Eq, Structural)]
pub enum KeyEvent {
    Char(char),
    Left,
    Right,
    Up,
    Down,
    Backspace,
    Delete,
    Esc,
    CtrlC,
    Other,
}

/// What one key leaves of the line and chooses as the next state, if any:
/// a line feed finishes, a hash asks for matches, escape quits, arrows
/// move or step the history, editing keys edit, anything else types.
pub open spec fn typing_m(key: KeyEvent, line: Seq<char>, cursor: int) -> (
    Seq<char>,
    int,
    Option<ConsoleState>,
) {
    match key {
        KeyEvent::Esc => (line, cursor, Some(ConsoleState::Quit)),
        KeyEvent::CtrlC => (line, cursor, Some(ConsoleState::Quit)),
        KeyEvent::Char(ch) => {
            if ch == '\n' {
                (line, cursor, Some(ConsoleState::Done))
            } else if ch == '#' {
                (line, cursor, Some(ConsoleState::Matches))
            } else {
                let t = inserted(line, cursor, ch);
                (t.0, t.1, None)
            }
        },
        KeyEvent::Left => (line, if cursor > 0 { cursor - 1 } else { 0 }, None),
        KeyEvent::Right => (
            line,
            if cursor + 1 < line.len() {
                cursor + 1
            } else {
                line.len() as int
            },
            None,
        ),
        KeyEvent::Up => (line, cursor, Some(ConsoleState::HistoryUp)),
        KeyEvent::Down => (line, cursor, Some(ConsoleState::HistoryDown)),
        KeyEvent::Backspace => {
            if line.len() > 0 {
                let t = backspaced(line, cursor);
                (t.0, t.1, None)
            } else {
                (line, cursor, None)
            }
        },
        KeyEvent::Delete => {
            if line.len() > 0 {
                let t = deleted(line, cursor);
                (t.0, t.1, None)
            } else {
                (line, cursor, None)
            }
        },
        KeyEvent::Other => (line, cursor, None),
    }
}

/// Handles one key while typing: editing keys change the line, arrows and
/// control keys pick the next console state.
pub fn typing(key: KeyEvent, line: &mut InputLine) -> (r: Option<ConsoleState>)
    requires
        old(line).line_m().len() + 2 <= usize::MAX,
    ensures
        (final(line).line_m(), final(line).cursor_m(), r) == typing_m(
            key,
            old(line).line_m(),
            old(line).cursor_m(),
        ),
{
    match key {
        KeyEvent::Esc => Some(ConsoleState::Quit),
        KeyEvent::CtrlC => Some(ConsoleState::Quit),
        KeyEvent::Char(ch) => {
            if ch == '\n' {
                return Some(ConsoleState::Done);
            }
            if ch == '#' {
                return Some(ConsoleState::Matches);
            }
            line.insert(ch);
            None
        },
        KeyEvent::Left => {
            line.cursor_left();
            None
        },
        KeyEvent::Right => {
            line.cursor_right();
            None
        },
        KeyEvent::Up => Some(ConsoleState::HistoryUp),
        KeyEvent::Down => Some(ConsoleState::HistoryDown),
        KeyEvent::Backspace => {
            if line.len() > 0 {
                line.backspace();
            }
            None
        },
        KeyEvent::Delete => {
            if line.len() > 0 {
                line.delete_key();
            }
            None
        },
        KeyEvent::Other => None,
    }
}

/// The prompt: its console state, the last finished query, the line being
/// edited, the history, the prompt text, and whether trinomes are printed.
pub struct Tui {
    state: ConsoleState,
    query: String,
    line: InputLine,
    history: History,
    prompt: String,
    do_print_trinomes: bool,
}

impl Tui {
    /// The console state.
    pub closed spec fn state_m(self) -> ConsoleState {
        self.state
    }

    /// The current query.
    pub closed spec fn query_m(self) -> Seq<char> {
        self.query@
    }

    /// The line under edit.
    pub closed spec fn line_s(self) -> InputLine {
        self.line
    }

    /// The history.
    pub closed spec fn history_s(self) -> History {
        self.history
    }

    /// The prompt text.
    pub closed spec fn prompt_m(self) -> Seq<char> {
        self.prompt@
    }

    /// Whether trinomes are printed.
    pub closed spec fn trinomes_m(self) -> bool {
        self.do_print_trinomes
    }

    /// A fresh prompt holding an initial query.
    pub fn new(init_query: String) -> (r: Self)
        ensures
            r.state_m() == ConsoleState::Start,
            r.query_m() == init_query@,
            r.line_s().line_m() == Seq::<char>::empty(),
            r.line_s().cursor_m() == 0,
            r.history_s().hist_m() == Seq::<(i32, Seq<char>)>::empty(),
            r.history_s().index_m() == 0,
            r.prompt_m() == "> "@,
            r.trinomes_m() == false,
    {
        Tui {
            query: init_query,
            state: ConsoleState::Start,
            line: InputLine::new_empty(),
            history: History::default(),
            prompt: String::from_str("> "),
            do_print_trinomes: false,
        }
    }

    /// The current query.
    pub fn query(&self) -> (r: &String)
        ensures
            r@ == self.query_m(),
    {
        &self.query
    }

    /// Switches trinome printing on or off.
    pub fn set_print_trinomes(&mut self, b: bool)
        ensures
            final(self).trinomes_m() == b,
            final(self).state_m() == old(self).state_m(),
            final(self).query_m() == old(self).query_m(),
            final(self).line_s() == old(self).line_s(),
            final(self).history_s() == old(self).history_s(),
            final(self).prompt_m() == old(self).prompt_m(),
    {
        self.do_print_trinomes = b;
    }

    /// Whether the prompt is waiting for a key.
    pub fn awaiting_key(&self) -> (r: bool)
        ensures
            r == (self.state_m() == ConsoleState::Typing),
    {
        match self.state {
            ConsoleState::Typing => true,
            _ => false,
        }
    }

    /// Puts the prompt at the start of a fresh run.
    pub fn begin(&mut self)
        ensures
            final(self).state_m() == ConsoleState::Start,
            final(self).query_m() == old(self).query_m(),
            final(self).line_s() == old(self).line_s(),
            final(self).history_s() == old(self).history_s(),
            final(self).prompt_m() == old(self).prompt_m(),
            final(self).trinomes_m() == old(self).trinomes_m(),
    {
        self.state = ConsoleState::Start;
    }

    /// Drives the console one step. The shell draws the screen, hands in
    /// one key while the prompt is typing, and performs what the returned
    /// result asks. A finished empty line quits; a finished query is
    /// valued under the cipher of the Anglossic Qabbala, saved with its
    /// number in the history, and handed back.
    pub fn step(&mut self, key: Option<KeyEvent>) -> (r: Option<TuiResult>)
        requires
            old(self).state_m() == ConsoleState::Typing ==> key is Some,
            old(self).line_s().line_m().len() + 2 <= usize::MAX,
            36 * old(self).line_s().line_m().len() <= i32::MAX,
        ensures
            final(self).query_m() == old(self).query_m(),
            final(self).prompt_m() == old(self).prompt_m(),
            final(self).trinomes_m() == old(self).trinomes_m(),
            old(self).state_m() == ConsoleState::Start ==> (r is None && final(self).state_m()
                == ConsoleState::Typing && final(self).line_s() == old(self).line_s() && final(self).history_s() == old(self).history_s()),
            old(self).state_m() == ConsoleState::Typing ==> ({
                let t = typing_m(
                    key->Some_0,
                    old(self).line_s().line_m(),
                    old(self).line_s().cursor_m(),
                );
                r is None && final(self).line_s().line_m() == t.0 && final(self).line_s().cursor_m()
                    == t.1 && final(self).state_m() == (match t.2 {
                    Some(s) => s,
                    None => ConsoleState::Typing,
                }) && final(self).history_s() == old(self).history_s()
            }),
            old(self).state_m() == ConsoleState::HistoryUp || old(self).state_m()
                == ConsoleState::HistoryDown ==> ({
                let h = final(self).history_s();
                r is None && final(self).state_m() == ConsoleState::Typing && h.hist_m() == old(self).history_s().hist_m() && final(self).line_s().line_m() == (if h.index_m()
                    < h.hist_m().len() {
                    h.hist_m()[h.index_m()].1
                } else {
                    Seq::<char>::empty()
                }) && final(self).line_s().cursor_m() == final(self).line_s().line_m().len()
            }),
            old(self).state_m() == ConsoleState::HistoryUp ==> final(self).history_s().index_m()
                == (if old(self).history_s().index_m() > 0 {
                old(self).history_s().index_m() - 1
            } else {
                0
            }),
            old(self).state_m() == ConsoleState::HistoryDown ==> final(self).history_s().index_m()
                == (if old(self).history_s().index_m() + 1 < old(self).history_s().hist_m().len() {
                old(self).history_s().index_m() + 1
            } else {
                old(self).history_s().hist_m().len() as int
            }),
            old(self).state_m() == ConsoleState::Matches ==> (r is None && final(self).state_m()
                == ConsoleState::Start && final(self).line_s() == old(self).line_s() && final(self).history_s() == old(self).history_s()),
            old(self).state_m() == ConsoleState::Done ==> ({
                let q = old(self).line_s().line_m();
                let number = gematria_m(aq_cipher(), upper_m(q));
                &&& final(self).state_m() == ConsoleState::Done
                &&& final(self).line_s().line_m() == Seq::<char>::empty()
                &&& final(self).line_s().cursor_m() == 0
                &&& final(self).history_s().hist_m() == (if old(self).history_s().hist_m().len()
                    == old(self).history_s().max_m() && old(self).history_s().hist_m().len() > 0 {
                    old(self).history_s().hist_m().drop_first()
                } else {
                    old(self).history_s().hist_m()
                }).push((number as i32, q))
                &&& (q.len() == 0 ==> (r matches Some(out) && out is Quit))
                &&& (q.len() > 0 ==> (r matches Some(out) && (out matches TuiResult::Done(s) && s@
                    == q)))
            }),
            old(self).state_m() == ConsoleState::Quit ==> (r matches Some(out) && out is Quit
                && final(self).state_m() == old(self).state_m() && final(self).line_s() == old(self).line_s() && final(self).history_s() == old(self).history_s()),
    {
        match self.state {
            ConsoleState::Start => {
                self.state = ConsoleState::Typing;
                None
            },
            ConsoleState::Typing => {
                let k = match key {
                    Some(k) => k,
                    None => {
                        proof {
                            assert(false);
                        }
                        KeyEvent::Other
                    },
                };
                match typing(k, &mut self.line) {
                    Some(s) => {
                        self.state = s;
                    },
                    None => {},
                }
                None
            },
            ConsoleState::HistoryUp => {
                self.history.up();
                let text = match self.history.current_query() {
                    Some(s) => String::from_str(s),
                    None => String::new(),
                };
                self.line = InputLine::from_string(text);
                self.state = ConsoleState::Typing;
                None
            },
            ConsoleState::HistoryDown => {
                self.history.down();
                let text = match self.history.current_query() {
                    Some(s) => String::from_str(s),
                    None => String::new(),
                };
                self.line = InputLine::from_string(text);
                self.state = ConsoleState::Typing;
                None
            },
            ConsoleState::Matches => {
                self.state = ConsoleState::Start;
                None
            },
            ConsoleState::Done => {
                let query = String::from_str(self.line.as_str());
                self.line = InputLine::new_empty();
                let upper = upper_str(query.as_str());
                proof {
                    reveal_strlit("0123456789ABCDEFGHIJKLMNOPQRSTUVWXYZ");
                    assert(aq_cipher().len() == 36);
                    assert(upper@.len() == query@.len());
                }
                let reductions = nummificate(upper.as_str());
                proof {
                    crate::aq::lemma_gematria_bounds(aq_cipher(), upper_m(query@));
                    let g = gematria_m(aq_cipher(), upper_m(query@));
                    assert(g >= 0);
                    assert(crate::aq::nummif_seq(g).len() >= 1);
                    assert(crate::aq::ints_of(reductions@).len() == reductions@.len());
                    assert(reductions@.len() >= 1);
                    assert(crate::aq::ints_of(reductions@)[0] == reductions@[0] as int);
                    assert(reductions@[0] as int == g);
                    assert(0 <= g <= 36 * query@.len());
                }
                let number = reductions[0];
                self.history.save((number, query.clone()));
                if query.as_str().unicode_len() == 0 {
                    Some(TuiResult::Quit)
                } else {
                    Some(TuiResult::Done(query))
                }
            },
            ConsoleState::Quit => Some(TuiResult::Quit),
        }
    }
}

} // verus!
