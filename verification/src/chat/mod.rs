//! The chat console: a capped message log, an input line with recall of
//! previously sent lines, and scrolling while open.

pub mod commands;
pub mod session;

use crate::clock::instant_now;
use crate::text::{chars_of, string_from_chars, string_pop, string_push, trim, trim_chars};
use vstd::string::StringExecFns;
use std::collections::VecDeque;
use std::time::Instant;
use vstd::prelude::*;

verus! {

/// Recent messages shown in the passive (chat closed) HUD.
pub const PASSIVE_LINE_COUNT: usize = 10;

/// Messages shown at once when chat is open and scrolled to the bottom.
pub const OPEN_LINE_COUNT: usize = 20;

/// Total messages retained, matching vanilla's stored history size.
pub const MAX_LOG_LEN: usize = 100;

#[derive(Clone, Copy, PartialEq, Eq, Structural, Debug)]
pub enum MessageKind {
    /// A normal chat line (including the player's own sent messages).
    Chat,
    /// Echo of a command the player ran, shown dimmed.
    CommandEcho,
    /// Successful command feedback.
    CommandOk,
    /// Command usage/validation error.
    CommandError,
}

pub struct ChatMessage {
    pub text: String,
    pub kind: MessageKind,
    created_at: Instant,
}

impl ChatMessage {
    pub closed spec fn created(&self) -> Instant {
        self.created_at
    }

    /// When the message was logged.
    pub fn created_at(&self) -> (r: Instant)
        ensures
            r == self.created(),
    {
        self.created_at
    }
}

impl View for ChatMessage {
    /// A message as the contracts see it: its text and kind.
    type V = (Seq<char>, MessageKind);

    closed spec fn view(&self) -> (Seq<char>, MessageKind) {
        (self.text@, self.kind)
    }
}

/// Recall state (cursor, input) after stepping to an older sent line: the
/// newest one when not recalling yet, one older otherwise, stopping at the
/// oldest; nothing changes without history.
pub open spec fn recall_prev(history: Seq<Seq<char>>, cursor: Option<usize>, typed: Seq<char>) -> (
    Option<usize>,
    Seq<char>,
) {
    let n = history.len();
    if n == 0 {
        (cursor, typed)
    } else {
        let next: int = match cursor {
            None => 0,
            Some(i) => if i + 1 < n {
                i + 1
            } else {
                n - 1
            },
        };
        (Some(next as usize), history[n - 1 - next])
    }
}

/// Recall state (cursor, input) after stepping to a newer sent line: past
/// the newest, recall stops and the input is cleared; nothing changes when
/// not recalling.
pub open spec fn recall_next(history: Seq<Seq<char>>, cursor: Option<usize>, typed: Seq<char>) -> (
    Option<usize>,
    Seq<char>,
) {
    match cursor {
        None => (cursor, typed),
        Some(i) => if i == 0 {
            (None, seq![])
        } else {
            (Some((i - 1) as usize), history[history.len() - i])
        },
    }
}

/// Stepping to an older sent line and back to a newer one returns to the
/// line recalled before (or, when recall had not started, to an empty
/// input), unless recall was already at the oldest line.
pub proof fn law_recall_next_undoes_prev(history: Seq<Seq<char>>, cursor: Option<usize>, typed: Seq<char>)
    requires
        0 < history.len() <= usize::MAX,
        cursor matches Some(i) ==> i + 1 < history.len(),
    ensures
        ({
            let p = recall_prev(history, cursor, typed);
            recall_next(history, p.0, p.1) == match cursor {
                None => (None::<usize>, Seq::<char>::empty()),
                Some(i) => (Some(i), history[history.len() - 1 - i]),
            }
        }),
{
    assert(seq![] =~= Seq::<char>::empty());
}

/// Recall state after pressing Up `k` times, starting from not recalling
/// with `typed` in the input.
pub open spec fn recall_prev_times(history: Seq<Seq<char>>, k: nat, typed: Seq<char>) -> (Option<usize>, Seq<char>)
    decreases k,
{
    if k == 0 {
        (None, typed)
    } else {
        let p = recall_prev_times(history, (k - 1) as nat, typed);
        recall_prev(history, p.0, p.1)
    }
}

/// Each press of Up recalls the next older sent line: after `k` presses
/// (from not recalling) the input is the `k`-th newest sent line, or the
/// oldest once `k` reaches the number of sent lines, and the cursor names
/// that line (0 for the newest).
pub proof fn law_recall_steps_one_line_older(history: Seq<Seq<char>>, k: nat, typed: Seq<char>)
    requires
        0 < history.len() <= usize::MAX,
        k > 0,
    ensures
        ({
            let n = history.len() as int;
            let m: int = if k <= n {
                k as int
            } else {
                n
            };
            recall_prev_times(history, k, typed) == (Some((m - 1) as usize), history[n - m])
        }),
    decreases k,
{
    let p = recall_prev_times(history, (k - 1) as nat, typed);
    assert(recall_prev_times(history, k, typed) == recall_prev(history, p.0, p.1));
    if k > 1 {
        law_recall_steps_one_line_older(history, (k - 1) as nat, typed);
    } else {
        assert(p == (None::<usize>, typed));
    }
}

/// Up always shows the sent line its new cursor names, counting from the
/// newest (cursor 0), and moves the cursor one line older (to the newest
/// when recall starts), never past the oldest.
pub proof fn law_recall_shows_cursor_line(history: Seq<Seq<char>>, cursor: Option<usize>, typed: Seq<char>)
    requires
        0 < history.len() <= usize::MAX,
        cursor matches Some(i) ==> i < history.len(),
    ensures
        ({
            let p = recall_prev(history, cursor, typed);
            &&& p.0 matches Some(j) && j < history.len() && p.1 == history[history.len() - 1 - j]
            &&& p.0 == match cursor {
                None => Some(0usize),
                Some(i) => Some(if i + 1 < history.len() { (i + 1) as usize } else { i }),
            }
        }),
{
}

pub struct Chat {
    log: VecDeque<ChatMessage>,
    pub input: String,
    pub is_open: bool,
    sent_history: Vec<String>,
    /// `None` means "not currently recalling"; `Some(i)` indexes `sent_history`
    /// from the end, where 0 is the most recently sent message.
    history_cursor: Option<usize>,
    /// Lines scrolled back from the bottom of the log while chat is open.
    scroll: usize,
}

impl Chat {
    /// The logged messages, oldest first.
    pub closed spec fn log(&self) -> Seq<(Seq<char>, MessageKind)> {
        self.log@.map_values(|m: ChatMessage| m@)
    }

    /// The sent (trimmed, non-blank) lines, oldest first.
    pub closed spec fn history(&self) -> Seq<Seq<char>> {
        self.sent_history@.map_values(|s: String| s@)
    }

    /// Which sent line is being recalled, counted back from the newest.
    pub closed spec fn cursor(&self) -> Option<usize> {
        self.history_cursor
    }

    /// The input line.
    pub closed spec fn typed(&self) -> Seq<char> {
        self.input@
    }

    /// Whether the chat is open.
    pub closed spec fn opened(&self) -> bool {
        self.is_open
    }

    /// Lines scrolled back from the bottom of the log.
    pub closed spec fn scrolled(&self) -> nat {
        self.scroll as nat
    }

    /// The log never exceeds its cap, the recall cursor points into the
    /// history, and the scroll offset stays inside the log.
    pub closed spec fn wf(&self) -> bool {
        &&& self.log@.len() <= MAX_LOG_LEN
        &&& (self.history_cursor matches Some(i) ==> i < self.sent_history@.len())
        &&& (self.scroll == 0 || self.scroll < self.log@.len())
    }

    /// The log never holds more than `MAX_LOG_LEN` messages, and the view
    /// never scrolls past the oldest one.
    pub proof fn law_log_stays_capped(&self)
        requires
            self.wf(),
        ensures
            self.log().len() <= MAX_LOG_LEN,
            self.scrolled() == 0 || self.scrolled() < self.log().len(),
    {
    }

    pub fn new() -> (r: Self)
        ensures
            r.wf(),
            r.log() == Seq::<(Seq<char>, MessageKind)>::empty(),
            r.typed() == Seq::<char>::empty(),
            !r.opened(),
            r.history() == Seq::<Seq<char>>::empty(),
            r.cursor() is None,
            r.scrolled() == 0,
    {
        let r = Chat {
            log: VecDeque::new(),
            input: String::new(),
            is_open: false,
            sent_history: Vec::new(),
            history_cursor: None,
            scroll: 0,
        };
        assert(r.log() =~= Seq::<(Seq<char>, MessageKind)>::empty());
        assert(r.history() =~= Seq::<Seq<char>>::empty());
        r
    }

    /// Logs a message, dropping the oldest one once the log is full, and
    /// snaps the view back to the newest message.
    pub fn push_message(&mut self, text: String, kind: MessageKind)
        requires
            old(self).wf(),
        ensures
            final(self).wf(),
            final(self).log() == (if old(self).log().len() >= MAX_LOG_LEN {
                old(self).log().drop_first()
            } else {
                old(self).log()
            }).push((text@, kind)),
            final(self).scrolled() == 0,
            final(self).typed() == old(self).typed(),
            final(self).opened() == old(self).opened(),
            final(self).history() == old(self).history(),
            final(self).cursor() == old(self).cursor(),
    {
        let ghost before = self.log();
        if self.log.len() >= MAX_LOG_LEN {
            self.log.pop_front();
        }
        let ghost text_view = text@;
        self.log.push_back(ChatMessage { text, kind, created_at: instant_now() });
        self.scroll = 0;
        proof {
            let kept = if before.len() >= MAX_LOG_LEN {
                before.drop_first()
            } else {
                before
            };
            assert(self.log() =~= kept.push((text_view, kind)));
        }
    }

    /// Opens the chat with `prefill` as the input line.
    pub fn open(&mut self, prefill: &str)
        requires
            old(self).wf(),
        ensures
            final(self).wf(),
            final(self).opened(),
            final(self).typed() == prefill@,
            final(self).cursor() is None,
            final(self).scrolled() == 0,
            final(self).log() == old(self).log(),
            final(self).history() == old(self).history(),
    {
        self.is_open = true;
        self.input = prefill.to_owned();
        self.history_cursor = None;
        self.scroll = 0;
    }

    /// Closes the chat and clears the input line.
    pub fn close(&mut self)
        requires
            old(self).wf(),
        ensures
            final(self).wf(),
            !final(self).opened(),
            final(self).typed() == Seq::<char>::empty(),
            final(self).cursor() is None,
            final(self).scrolled() == 0,
            final(self).log() == old(self).log(),
            final(self).history() == old(self).history(),
    {
        self.is_open = false;
        self.input = String::new();
        self.history_cursor = None;
        self.scroll = 0;
    }

    /// Types one character.
    pub fn push_char(&mut self, c: char)
        requires
            old(self).wf(),
        ensures
            final(self).wf(),
            final(self).typed() == old(self).typed().push(c),
            final(self).opened() == old(self).opened(),
            final(self).cursor() == old(self).cursor(),
            final(self).scrolled() == old(self).scrolled(),
            final(self).log() == old(self).log(),
            final(self).history() == old(self).history(),
    {
        string_push(&mut self.input, c);
    }

    /// Deletes the last character of the input, if any.
    pub fn backspace(&mut self)
        requires
            old(self).wf(),
        ensures
            final(self).wf(),
            final(self).typed() == (if old(self).typed().len() > 0 {
                old(self).typed().drop_last()
            } else {
                old(self).typed()
            }),
            final(self).opened() == old(self).opened(),
            final(self).cursor() == old(self).cursor(),
            final(self).scrolled() == old(self).scrolled(),
            final(self).log() == old(self).log(),
            final(self).history() == old(self).history(),
    {
        string_pop(&mut self.input);
    }

    /// Appends a Tab-completion's literal text (see
    /// [`commands::Suggestion::tab_insert`]).
    pub fn apply_completion(&mut self, text: &str)
        requires
            old(self).wf(),
        ensures
            final(self).wf(),
            final(self).typed() == old(self).typed() + text@,
            final(self).opened() == old(self).opened(),
            final(self).cursor() == old(self).cursor(),
            final(self).scrolled() == old(self).scrolled(),
            final(self).log() == old(self).log(),
            final(self).history() == old(self).history(),
    {
        self.input.append(text);
    }

    /// Recalls older sent messages into the input, most-recent-first,
    /// stopping at the oldest.
    pub fn history_prev(&mut self)
        requires
            old(self).wf(),
        ensures
            final(self).wf(),
            (final(self).cursor(), final(self).typed()) == recall_prev(
                old(self).history(),
                old(self).cursor(),
                old(self).typed(),
            ),
            final(self).opened() == old(self).opened(),
            final(self).scrolled() == old(self).scrolled(),
            final(self).log() == old(self).log(),
            final(self).history() == old(self).history(),
    {
        if self.sent_history.len() == 0 {
            return;
        }
        let n = self.sent_history.len();
        let next = match self.history_cursor {
            None => 0,
            Some(i) => if i + 1 < n {
                i + 1
            } else {
                n - 1
            },
        };
        self.history_cursor = Some(next);
        self.input = self.sent_history[n - 1 - next].clone();
    }

    /// Steps the recall back toward the newest sent message; past the
    /// newest it stops recalling and clears the input.
    pub fn history_next(&mut self)
        requires
            old(self).wf(),
        ensures
            final(self).wf(),
            (final(self).cursor(), final(self).typed()) == recall_next(
                old(self).history(),
                old(self).cursor(),
                old(self).typed(),
            ),
            final(self).opened() == old(self).opened(),
            final(self).scrolled() == old(self).scrolled(),
            final(self).log() == old(self).log(),
            final(self).history() == old(self).history(),
    {
        match self.history_cursor {
            None => {},
            Some(0) => {
                self.history_cursor = None;
                self.input = String::new();
            },
            Some(i) => {
                let next = i - 1;
                self.history_cursor = Some(next);
                self.input = self.sent_history[self.sent_history.len() - 1 - next].clone();
            },
        }
    }

    /// Scrolls one line back, as long as a line remains above the view.
    pub fn scroll_up(&mut self)
        requires
            old(self).wf(),
        ensures
            final(self).wf(),
            final(self).scrolled() == (if old(self).scrolled() + 1 < old(self).log().len() {
                old(self).scrolled() + 1
            } else {
                old(self).scrolled()
            }),
            final(self).typed() == old(self).typed(),
            final(self).opened() == old(self).opened(),
            final(self).cursor() == old(self).cursor(),
            final(self).log() == old(self).log(),
            final(self).history() == old(self).history(),
    {
        if self.scroll + 1 < self.log.len() {
            self.scroll = self.scroll + 1;
        }
    }

    /// Scrolls one line toward the newest message.
    pub fn scroll_down(&mut self)
        requires
            old(self).wf(),
        ensures
            final(self).wf(),
            final(self).scrolled() == (if old(self).scrolled() > 0 {
                old(self).scrolled() - 1
            } else {
                0
            }),
            final(self).typed() == old(self).typed(),
            final(self).opened() == old(self).opened(),
            final(self).cursor() == old(self).cursor(),
            final(self).log() == old(self).log(),
            final(self).history() == old(self).history(),
    {
        self.scroll = self.scroll.saturating_sub(1);
    }

    /// Clears the input and returns the submitted line (`None` if it was
    /// blank), recording non-blank submissions into recall history. Always
    /// closes the chat, matching vanilla (even submitting blank input closes
    /// it).
    pub fn submit(&mut self) -> (r: Option<String>)
        requires
            old(self).wf(),
        ensures
            final(self).wf(),
            !final(self).opened(),
            final(self).typed() == Seq::<char>::empty(),
            final(self).cursor() is None,
            final(self).scrolled() == 0,
            final(self).log() == old(self).log(),
            trim(old(self).typed()).len() == 0 ==> r is None && final(self).history() == old(self).history(),
            trim(old(self).typed()).len() > 0 ==> (r matches Some(s) && s@ == trim(old(self).typed()))
                && final(self).history() == old(self).history().push(trim(old(self).typed())),
    {
        let mut line = String::new();
        std::mem::swap(&mut line, &mut self.input);
        self.close();
        let chars = chars_of(line.as_str());
        let trimmed = trim_chars(&chars);
        if trimmed.len() == 0 {
            return None;
        }
        let s = string_from_chars(&trimmed);
        let ghost before = self.history();
        self.sent_history.push(s.clone());
        assert(self.history() =~= before.push(s@));
        Some(s)
    }

    /// How many messages the log holds.
    pub fn log_len(&self) -> (r: usize)
        ensures
            r == self.log().len(),
    {
        self.log.len()
    }

    /// The `i`-th logged message, oldest first.
    pub fn message(&self, i: usize) -> (r: &ChatMessage)
        requires
            i < self.log().len(),
        ensures
            r@ == self.log()[i as int],
    {
        &self.log[i]
    }

    /// The index range `[start, end)` of the messages shown while the chat
    /// is open: up to `OPEN_LINE_COUNT` messages ending `scroll` lines above
    /// the newest.
    pub fn open_window(&self) -> (r: (usize, usize))
        ensures
            r.1 == (if self.scrolled() <= self.log().len() {
                self.log().len() - self.scrolled()
            } else {
                0
            }),
            r.0 == (if r.1 >= OPEN_LINE_COUNT {
                r.1 - OPEN_LINE_COUNT
            } else {
                0
            }),
    {
        let end = self.log.len().saturating_sub(self.scroll);
        let start = end.saturating_sub(OPEN_LINE_COUNT);
        (start, end)
    }
}

/// The index range `[start, end)` of the messages shown while the chat is
/// closed, given for each logged message (oldest first) whether it has not
/// yet faded out: the newest run of unfaded messages, at most
/// `PASSIVE_LINE_COUNT` of them, ending at the newest message.
pub fn passive_window(unfaded: &Vec<bool>) -> (r: (usize, usize))
    ensures
        r.1 == unfaded@.len(),
        r.0 <= r.1,
        r.1 - r.0 <= PASSIVE_LINE_COUNT,
        forall|i: int| r.0 <= i < r.1 ==> #[trigger] unfaded@[i],
        r.1 - r.0 < PASSIVE_LINE_COUNT ==> r.0 == 0 || !unfaded@[r.0 - 1],
{
    let end = unfaded.len();
    let mut start = end;
    while start > 0 && end - start < PASSIVE_LINE_COUNT && unfaded[start - 1]
        invariant
            start <= end == unfaded@.len(),
            end - start <= PASSIVE_LINE_COUNT,
            forall|i: int| start <= i < end ==> #[trigger] unfaded@[i],
        decreases start,
    {
        start = start - 1;
    }
    (start, end)
}

impl Default for Chat {
    fn default() -> (r: Self)
        ensures
            r.wf(),
            r.log() == Seq::<(Seq<char>, MessageKind)>::empty(),
            r.typed() == Seq::<char>::empty(),
            !r.opened(),
            r.history() == Seq::<Seq<char>>::empty(),
            r.cursor() is None,
            r.scrolled() == 0,
    {
        Self::new()
    }
}

} // verus!
