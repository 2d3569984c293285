//! What the game does with chat input: running submitted lines, typed text
//! and Tab completion.

use super::commands::{command_outcome, execute, fps_after, radius_fits, streamer_after, suggest, suggest_spec, CommandEffect};
use super::{Chat, MAX_LOG_LEN, MessageKind};
use crate::fps::FpsCounter;
use crate::text::{chars_of, string_from_chars};
use crate::world::streaming::ChunkStreamer;
use vstd::prelude::*;

verus! {

/// `log` after logging `m`: the oldest message goes once the log is full.
pub open spec fn log_push(log: Seq<(Seq<char>, MessageKind)>, m: (Seq<char>, MessageKind)) -> Seq<
    (Seq<char>, MessageKind),
> {
    (if log.len() >= MAX_LOG_LEN {
        log.drop_first()
    } else {
        log
    }).push(m)
}

/// `log` after logging each of `ms` in order.
pub open spec fn log_push_all(log: Seq<(Seq<char>, MessageKind)>, ms: Seq<(Seq<char>, MessageKind)>) -> Seq<
    (Seq<char>, MessageKind),
>
    decreases ms.len(),
{
    if ms.len() == 0 {
        log
    } else {
        log_push(log_push_all(log, ms.drop_last()), ms.last())
    }
}

/// The pieces of `s` between line breaks (`str::split('\n')`): one more
/// piece than there are breaks, empty pieces included.
pub open spec fn split_lines(s: Seq<char>) -> Seq<Seq<char>>
    decreases s.len(),
{
    if s.len() == 0 {
        seq![seq![]]
    } else if s.last() == '\n' {
        split_lines(s.drop_last()).push(seq![])
    } else {
        let p = split_lines(s.drop_last());
        p.update(p.len() - 1, p.last().push(s.last()))
    }
}

proof fn lemma_split_lines_nonempty(s: Seq<char>)
    ensures
        split_lines(s).len() >= 1,
    decreases s.len(),
{
    if s.len() > 0 {
        lemma_split_lines_nonempty(s.drop_last());
    }
}

/// The lines of `text`, split at line breaks.
fn lines_of(text: &Vec<char>) -> (r: Vec<Vec<char>>)
    ensures
        r@.map_values(|l: Vec<char>| l@) == split_lines(text@),
{
    let mut done: Vec<Vec<char>> = Vec::new();
    let mut cur: Vec<char> = Vec::new();
    let mut i: usize = 0;
    assert(text@.take(0) =~= Seq::<char>::empty());
    while i < text.len()
        invariant
            i <= text@.len(),
            done@.map_values(|l: Vec<char>| l@).push(cur@) == split_lines(text@.take(i as int)),
        decreases text@.len() - i,
    {
        let c = text[i];
        let ghost d0 = done@.map_values(|l: Vec<char>| l@);
        let ghost c0 = cur@;
        assert(text@.take(i + 1).drop_last() =~= text@.take(i as int));
        if c == '\n' {
            let mut fresh: Vec<char> = Vec::new();
            std::mem::swap(&mut fresh, &mut cur);
            done.push(fresh);
            assert(done@.map_values(|l: Vec<char>| l@) =~= d0.push(c0));
            assert(done@.map_values(|l: Vec<char>| l@).push(cur@) =~= split_lines(text@.take(i + 1)));
        } else {
            cur.push(c);
            proof {
                lemma_split_lines_nonempty(text@.take(i as int));
                let p = split_lines(text@.take(i as int));
                assert(p =~= d0.push(c0));
                assert(d0.push(cur@) =~= p.update(p.len() - 1, p.last().push(c)));
            }
        }
        i = i + 1;
    }
    done.push(cur);
    assert(text@.take(text@.len() as int) =~= text@);
    done
}

/// What handling `line` logs: for a command (a line starting with `/`) the
/// line itself as an echo, then each line of the command's response; for
/// plain text, the text as a chat message.
pub open spec fn logged_for(line: Seq<char>) -> Seq<(Seq<char>, MessageKind)> {
    if line.len() > 0 && line[0] == '/' {
        let o = command_outcome(line.drop_first());
        seq![(line, MessageKind::CommandEcho)] + split_lines(o.0).map_values(|t: Seq<char>| (t, o.1))
    } else {
        seq![(line, MessageKind::Chat)]
    }
}

/// What handling `line` does to the game state.
pub open spec fn effect_of(line: Seq<char>) -> CommandEffect {
    if line.len() > 0 && line[0] == '/' {
        command_outcome(line.drop_first()).2
    } else {
        CommandEffect::Nothing
    }
}

/// Handles a submitted chat line: runs it as a command if it starts with
/// `/` (echoing the command itself, then its response one line per chat
/// message), otherwise logs it as a plain chat message. Returns the vsync
/// setting a command asks for, which only the renderer can apply.
pub fn handle_submitted_line(chat: &mut Chat, streamer: &mut ChunkStreamer, fps: &mut FpsCounter, line: String) -> (vsync:
    Option<bool>)
    requires
        old(chat).wf(),
        radius_fits(*old(streamer), effect_of(line@)),
    ensures
        final(chat).wf(),
        final(chat).log() == log_push_all(old(chat).log(), logged_for(line@)),
        final(chat).scrolled() == 0,
        final(chat).typed() == old(chat).typed(),
        final(chat).opened() == old(chat).opened(),
        final(chat).history() == old(chat).history(),
        final(chat).cursor() == old(chat).cursor(),
        vsync == match effect_of(line@) {
            CommandEffect::Vsync(b) => Some(b),
            _ => None,
        },
        streamer_after(*old(streamer), *final(streamer), effect_of(line@)),
        fps_after(*old(fps), *final(fps), effect_of(line@)),
{
    let chars = chars_of(line.as_str());
    if chars.len() > 0 && chars[0] == '/' {
        let ghost log0 = chat.log();
        let command = string_from_chars(&crate::text::slice_chars(&chars, 1, chars.len()));
        assert(command@ =~= line@.drop_first());
        let response = execute(command.as_str(), streamer, fps);
        let ghost o = command_outcome(line@.drop_first());
        chat.push_message(line, MessageKind::CommandEcho);
        let text = chars_of(response.text.as_str());
        let lines = lines_of(&text);
        let ghost msgs = split_lines(o.0).map_values(|t: Seq<char>| (t, o.1));
        assert(log_push_all(log0, seq![(chars@, MessageKind::CommandEcho)]) == chat.log()) by {
            reveal_with_fuel(log_push_all, 2);
            assert(seq![(chars@, MessageKind::CommandEcho)].drop_last() =~= Seq::<(Seq<char>, MessageKind)>::empty());
        }
        let mut k: usize = 0;
        while k < lines.len()
            invariant
                k <= lines@.len(),
                lines@.map_values(|l: Vec<char>| l@) == split_lines(o.0),
                msgs == split_lines(o.0).map_values(|t: Seq<char>| (t, o.1)),
                response.kind == o.1,
                chat.wf(),
                chat.log() == log_push_all(log0, seq![(chars@, MessageKind::CommandEcho)] + msgs.take(k as int)),
                chat.scrolled() == 0,
                chat.typed() == old(chat).typed(),
                chat.opened() == old(chat).opened(),
                chat.history() == old(chat).history(),
                chat.cursor() == old(chat).cursor(),
            decreases lines@.len() - k,
        {
            let piece = string_from_chars(&lines[k]);
            let ghost before = chat.log();
            chat.push_message(piece, response.kind);
            proof {
                let pre = seq![(chars@, MessageKind::CommandEcho)] + msgs.take(k as int);
                let post = seq![(chars@, MessageKind::CommandEcho)] + msgs.take(k + 1);
                assert(post.drop_last() =~= pre);
                assert(post.last() == msgs[k as int]);
                assert(lines@[k as int]@ == split_lines(o.0)[k as int]);
            }
            k = k + 1;
        }
        assert(msgs.take(msgs.len() as int) =~= msgs);
        response.set_vsync
    } else {
        let ghost log0 = chat.log();
        chat.push_message(line, MessageKind::Chat);
        assert(log_push_all(log0, seq![(chars@, MessageKind::Chat)]) == chat.log()) by {
            reveal_with_fuel(log_push_all, 2);
            assert(seq![(chars@, MessageKind::Chat)].drop_last() =~= Seq::<(Seq<char>, MessageKind)>::empty());
        }
        None
    }
}

/// Unicode control characters (general category Cc), which
/// `char::is_control` tests.
pub open spec fn is_control(c: char) -> bool {
    c <= '\u{1f}' || ('\u{7f}' <= c && c <= '\u{9f}')
}

/// The characters of `text` that are not control characters.
pub open spec fn printable(text: Seq<char>) -> Seq<char>
    decreases text.len(),
{
    if text.len() == 0 {
        seq![]
    } else if is_control(text.last()) {
        printable(text.drop_last())
    } else {
        printable(text.drop_last()).push(text.last())
    }
}

/// Types the printable characters of `text` (what a key press produced).
pub fn type_text(chat: &mut Chat, text: &str)
    requires
        old(chat).wf(),
    ensures
        final(chat).wf(),
        final(chat).typed() == old(chat).typed() + printable(text@),
        final(chat).opened() == old(chat).opened(),
        final(chat).cursor() == old(chat).cursor(),
        final(chat).scrolled() == old(chat).scrolled(),
        final(chat).log() == old(chat).log(),
        final(chat).history() == old(chat).history(),
{
    let t = chars_of(text);
    let mut i: usize = 0;
    assert(t@.take(0) =~= Seq::<char>::empty());
    while i < t.len()
        invariant
            i <= t@.len(),
            t@ == text@,
            chat.wf(),
            chat.typed() == old(chat).typed() + printable(t@.take(i as int)),
            chat.opened() == old(chat).opened(),
            chat.cursor() == old(chat).cursor(),
            chat.scrolled() == old(chat).scrolled(),
            chat.log() == old(chat).log(),
            chat.history() == old(chat).history(),
        decreases t@.len() - i,
    {
        let c = t[i];
        assert(t@.take(i + 1).drop_last() =~= t@.take(i as int));
        if !(c <= '\u{1f}' || ('\u{7f}' <= c && c <= '\u{9f}')) {
            chat.push_char(c);
        }
        i = i + 1;
    }
    assert(t@.take(t@.len() as int) =~= t@);
}

/// Tab: appends the literal text the current suggestion inserts, if the
/// input has a suggestion with one.
pub fn tab_complete(chat: &mut Chat)
    requires
        old(chat).wf(),
    ensures
        final(chat).wf(),
        final(chat).typed() == match suggest_spec(old(chat).typed()) {
            Some((_, Some(t))) => old(chat).typed() + t,
            _ => old(chat).typed(),
        },
        final(chat).opened() == old(chat).opened(),
        final(chat).cursor() == old(chat).cursor(),
        final(chat).scrolled() == old(chat).scrolled(),
        final(chat).log() == old(chat).log(),
        final(chat).history() == old(chat).history(),
{
    let s = suggest(chat.input.as_str());
    match s {
        Some(suggestion) => match suggestion.tab_insert {
            Some(insert) => chat.apply_completion(insert.as_str()),
            None => {},
        },
        None => {},
    }
}

} // verus!
