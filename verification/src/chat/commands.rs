//! The chat command language: `/settings ...` and `/help`, run against the
//! streamer and the frame counter, and Minecraft-style completion hints.

use super::MessageKind;
use crate::fps::FpsCounter;
use crate::text::{
    chars_of, decimal, decimal_signed, parse_bool, parse_bool_spec, parse_i32, parse_i32_spec, parse_u32,
    parse_u32_spec, push_chars, push_decimal, push_decimal_signed, push_str, slice_chars, split_ws,
    split_whitespace, string_from_chars,
};
use crate::world::streaming::{ChunkStreamer, kept_gap};
use vstd::prelude::*;

verus! {

pub const MIN_RENDER_DISTANCE: i32 = 1;

pub const MAX_RENDER_DISTANCE: i32 = 512;

/// Cap applied by `/settings fps max true`: a plain on/off toggle doesn't say
/// *what* to cap at, so this is the value it means by "capped".
pub const DEFAULT_CAPPED_FPS: u32 = 60;

pub const MIN_FPS_CAP: u32 = 1;

pub const MAX_FPS_CAP: u32 = 1000;

/// Newline-separated, not comma-separated: this is long enough that a single
/// line either overflows the chat box or reads as a wall of text.
pub const SETTINGS_USAGE: &'static str = "Usage:\n/settings rd <chunks>\n/settings fps max <true|false|number>\n/settings fps counter <true|false>\n/settings fps sync <true|false>";

/// The `/help` text, one command per line.
pub const HELP_TEXT: &'static str = "Commands:\n/settings rd <chunks>\n/settings fps max <true|false|number>\n/settings fps counter <true|false>\n/settings fps sync <true|false>\n/help";

pub struct CommandResponse {
    pub text: String,
    pub kind: MessageKind,
    /// Set by `/settings fps sync`. Applying it means reconfiguring the GPU
    /// surface, which only the caller can do.
    pub set_vsync: Option<bool>,
}

/// What a command changes in the game state.
pub enum CommandEffect {
    Nothing,
    LoadRadius(i32),
    FpsCap(Option<u32>),
    ShowCounter(bool),
    Vsync(bool),
}

/// A command's outcome: response text, kind and effect.
pub type Outcome = (Seq<char>, MessageKind, CommandEffect);

pub open spec fn ok_outcome(text: Seq<char>, effect: CommandEffect) -> Outcome {
    (text, MessageKind::CommandOk, effect)
}

pub open spec fn err_outcome(text: Seq<char>) -> Outcome {
    (text, MessageKind::CommandError, CommandEffect::Nothing)
}

/// `r` reports outcome `o`.
pub open spec fn responds(r: CommandResponse, o: Outcome) -> bool {
    &&& r.text@ == o.0
    &&& r.kind == o.1
    &&& r.set_vsync == match o.2 {
        CommandEffect::Vsync(b) => Some(b),
        _ => None,
    }
}

/// `'value'`.
pub open spec fn quoted(v: Seq<char>) -> Seq<char> {
    seq!['\''] + v + seq!['\'']
}

/// Outcome of `/settings fps max <value>`: `true` caps at the default, `false`
/// uncaps, and a plain number caps at that exact value.
pub open spec fn fps_max_outcome(v: Seq<char>) -> Outcome {
    match parse_bool_spec(v) {
        Some(true) => ok_outcome(
            "FPS capped at "@ + decimal(DEFAULT_CAPPED_FPS as nat) + "."@,
            CommandEffect::FpsCap(Some(DEFAULT_CAPPED_FPS)),
        ),
        Some(false) => ok_outcome("FPS uncapped."@, CommandEffect::FpsCap(None)),
        None => match parse_u32_spec(v) {
            Some(n) => if MIN_FPS_CAP <= n <= MAX_FPS_CAP {
                ok_outcome("FPS capped at "@ + decimal(n as nat) + "."@, CommandEffect::FpsCap(Some(n)))
            } else {
                err_outcome(
                    "FPS cap must be between "@ + decimal(MIN_FPS_CAP as nat) + " and "@ + decimal(
                        MAX_FPS_CAP as nat,
                    ) + " (got "@ + decimal(n as nat) + ")."@,
                )
            },
            None => err_outcome(quoted(v) + " is not true, false, or a number."@),
        },
    }
}

/// Outcome of `/settings fps counter <value>`.
pub open spec fn fps_counter_outcome(v: Seq<char>) -> Outcome {
    match parse_bool_spec(v) {
        Some(true) => ok_outcome("FPS counter shown."@, CommandEffect::ShowCounter(true)),
        Some(false) => ok_outcome("FPS counter hidden."@, CommandEffect::ShowCounter(false)),
        None => err_outcome(quoted(v) + " is not true or false."@),
    }
}

/// Outcome of `/settings fps sync <value>`.
pub open spec fn fps_sync_outcome(v: Seq<char>) -> Outcome {
    match parse_bool_spec(v) {
        Some(true) => ok_outcome("Vsync enabled."@, CommandEffect::Vsync(true)),
        Some(false) => ok_outcome("Vsync disabled."@, CommandEffect::Vsync(false)),
        None => err_outcome(quoted(v) + " is not true or false."@),
    }
}

/// Outcome of `/settings rd <value>`.
pub open spec fn rd_outcome(v: Seq<char>) -> Outcome {
    match parse_i32_spec(v) {
        Some(n) => if MIN_RENDER_DISTANCE <= n <= MAX_RENDER_DISTANCE {
            ok_outcome(
                "Render distance set to "@ + decimal_signed(n as int) + " chunks."@,
                CommandEffect::LoadRadius(n),
            )
        } else {
            err_outcome(
                "Render distance must be between "@ + decimal_signed(MIN_RENDER_DISTANCE as int)
                    + " and "@ + decimal_signed(MAX_RENDER_DISTANCE as int) + " chunks (got "@
                    + decimal_signed(n as int) + ")."@,
            )
        },
        None => err_outcome(quoted(v) + " is not a number."@),
    }
}

/// Outcome of `/settings` followed by the words `args`.
pub open spec fn settings_outcome(args: Seq<Seq<char>>) -> Outcome {
    if args.len() == 2 && args[0] == "rd"@ {
        rd_outcome(args[1])
    } else if args.len() == 1 && args[0] == "rd"@ {
        err_outcome("Usage: /settings rd <chunks>"@)
    } else if args.len() == 3 && args[0] == "fps"@ && args[1] == "max"@ {
        fps_max_outcome(args[2])
    } else if args.len() == 2 && args[0] == "fps"@ && args[1] == "max"@ {
        err_outcome("Usage: /settings fps max <true|false> or /settings fps max <number>"@)
    } else if args.len() == 3 && args[0] == "fps"@ && args[1] == "counter"@ {
        fps_counter_outcome(args[2])
    } else if args.len() == 2 && args[0] == "fps"@ && args[1] == "counter"@ {
        err_outcome("Usage: /settings fps counter <true|false>"@)
    } else if args.len() == 3 && args[0] == "fps"@ && args[1] == "sync"@ {
        fps_sync_outcome(args[2])
    } else if args.len() == 2 && args[0] == "fps"@ && args[1] == "sync"@ {
        err_outcome("Usage: /settings fps sync <true|false>"@)
    } else if args.len() >= 2 && args[0] == "fps"@ {
        err_outcome("Unknown fps subcommand: "@ + args[1] + ". Available: max, counter, sync"@)
    } else if args.len() == 1 && args[0] == "fps"@ {
        err_outcome("Usage: /settings fps <max|counter|sync> ..."@)
    } else if args.len() >= 1 {
        err_outcome("Unknown settings subcommand: "@ + args[0] + ". Available: rd, fps"@)
    } else {
        err_outcome(SETTINGS_USAGE@)
    }
}

/// `input` without one leading `/`, if it has one.
pub open spec fn strip_slash(input: Seq<char>) -> Seq<char> {
    if input.len() > 0 && input[0] == '/' {
        input.drop_first()
    } else {
        input
    }
}

/// Outcome of the chat command `input` (its leading `/` is optional).
pub open spec fn command_outcome(input: Seq<char>) -> Outcome {
    let words = split_ws(strip_slash(input));
    if words.len() == 0 {
        err_outcome("Unknown command. Type /help for a list of commands."@)
    } else if words[0] == "settings"@ {
        settings_outcome(words.drop_first())
    } else if words[0] == "help"@ {
        ok_outcome(HELP_TEXT@, CommandEffect::Nothing)
    } else {
        err_outcome("Unknown command: /"@ + words[0] + ". Type /help for a list of commands."@)
    }
}

/// The frame counter after effect `e`: the cap or the counter's visibility
/// as `e` sets them, everything else (the current window too) as before; a
/// counter that `e` does not touch is left exactly as it was.
pub open spec fn fps_after(before: FpsCounter, after: FpsCounter, e: CommandEffect) -> bool {
    &&& after == match e {
        CommandEffect::FpsCap(c) => before.with_cap(c),
        CommandEffect::ShowCounter(b) => before.with_show(b),
        _ => before,
    }
    &&& after.frames() == before.frames()
    &&& after.rate_shown() == before.rate_shown()
    &&& after.cap_spec() == match e {
        CommandEffect::FpsCap(c) => c,
        _ => before.cap_spec(),
    }
    &&& after.shown() == match e {
        CommandEffect::ShowCounter(b) => b,
        _ => before.shown(),
    }
}

/// The streamer after effect `e`: a new load radius (keeping the gap to the
/// unload radius) for `LoadRadius`, unchanged otherwise.
pub open spec fn streamer_after(before: ChunkStreamer, after: ChunkStreamer, e: CommandEffect) -> bool {
    match e {
        CommandEffect::LoadRadius(n) => {
            &&& after.load_r() == n
            &&& after.unload_r() == n + kept_gap(before.load_r(), before.unload_r())
            &&& after.loaded() == before.loaded()
            &&& after.seed_spec() == before.seed_spec()
        },
        _ => after == before,
    }
}

/// Effect `e` leaves the streamer's radii representable: a new load radius
/// plus the gap kept to the unload radius fits an `i32`.
pub open spec fn radius_fits(streamer: ChunkStreamer, e: CommandEffect) -> bool {
    e matches CommandEffect::LoadRadius(n) ==> n + kept_gap(streamer.load_r(), streamer.unload_r()) <= i32::MAX
}

/// A successful response.
pub fn ok(text: String) -> (r: CommandResponse)
    ensures
        r.text@ == text@,
        r.kind == MessageKind::CommandOk,
        r.set_vsync is None,
{
    CommandResponse { text, kind: MessageKind::CommandOk, set_vsync: None }
}

/// A usage or validation error.
pub fn err(text: String) -> (r: CommandResponse)
    ensures
        r.text@ == text@,
        r.kind == MessageKind::CommandError,
        r.set_vsync is None,
{
    CommandResponse { text, kind: MessageKind::CommandError, set_vsync: None }
}

/// Whether `w` spells `s`.
fn word_is(w: &Vec<char>, s: &str) -> (r: bool)
    ensures
        r == (w@ == s@),
{
    let t = chars_of(s);
    if w.len() != t.len() {
        return false;
    }
    let mut i: usize = 0;
    while i < w.len()
        invariant
            i <= w.len() == t.len(),
            t@ == s@,
            forall|j: int| 0 <= j < i ==> w@[j] == t@[j],
        decreases w.len() - i,
    {
        if w[i] != t[i] {
            return false;
        }
        i = i + 1;
    }
    assert(w@ =~= t@);
    true
}

/// `'value' <rest>` as text.
fn quoted_with(value: &Vec<char>, rest: &str) -> (r: String)
    ensures
        r@ == quoted(value@) + rest@,
{
    let mut v: Vec<char> = Vec::new();
    v.push('\'');
    push_chars(&mut v, value);
    v.push('\'');
    push_str(&mut v, rest);
    assert(v@ =~= quoted(value@) + rest@);
    string_from_chars(&v)
}

/// `true` caps at [`DEFAULT_CAPPED_FPS`], `false` uncaps, and a plain number
/// caps at that exact value (and implies capping is on).
pub fn execute_fps_max(value: &str, fps: &mut FpsCounter) -> (r: CommandResponse)
    ensures
        responds(r, fps_max_outcome(value@)),
        fps_after(*old(fps), *final(fps), fps_max_outcome(value@).2),
{
    let v = chars_of(value);
    match parse_bool(&v) {
        Some(true) => {
            fps.set_cap(Some(DEFAULT_CAPPED_FPS));
            let mut t: Vec<char> = Vec::new();
            push_str(&mut t, "FPS capped at ");
            push_decimal(&mut t, DEFAULT_CAPPED_FPS as u64);
            push_str(&mut t, ".");
            assert(t@ =~= "FPS capped at "@ + decimal(DEFAULT_CAPPED_FPS as nat) + "."@);
            return ok(string_from_chars(&t));
        },
        Some(false) => {
            fps.set_cap(None);
            return ok("FPS uncapped.".to_owned());
        },
        None => {},
    }
    match parse_u32(&v) {
        Some(n) => if MIN_FPS_CAP <= n && n <= MAX_FPS_CAP {
            fps.set_cap(Some(n));
            let mut t: Vec<char> = Vec::new();
            push_str(&mut t, "FPS capped at ");
            push_decimal(&mut t, n as u64);
            push_str(&mut t, ".");
            assert(t@ =~= "FPS capped at "@ + decimal(n as nat) + "."@);
            ok(string_from_chars(&t))
        } else {
            let mut t: Vec<char> = Vec::new();
            push_str(&mut t, "FPS cap must be between ");
            push_decimal(&mut t, MIN_FPS_CAP as u64);
            push_str(&mut t, " and ");
            push_decimal(&mut t, MAX_FPS_CAP as u64);
            push_str(&mut t, " (got ");
            push_decimal(&mut t, n as u64);
            push_str(&mut t, ").");
            assert(t@ =~= "FPS cap must be between "@ + decimal(MIN_FPS_CAP as nat) + " and "@ + decimal(
                MAX_FPS_CAP as nat,
            ) + " (got "@ + decimal(n as nat) + ")."@);
            err(string_from_chars(&t))
        },
        None => err(quoted_with(&v, " is not true, false, or a number.")),
    }
}

pub fn execute_fps_counter(value: &str, fps: &mut FpsCounter) -> (r: CommandResponse)
    ensures
        responds(r, fps_counter_outcome(value@)),
        fps_after(*old(fps), *final(fps), fps_counter_outcome(value@).2),
{
    let v = chars_of(value);
    match parse_bool(&v) {
        Some(show) => {
            fps.set_show(show);
            ok(
                if show {
                    "FPS counter shown.".to_owned()
                } else {
                    "FPS counter hidden.".to_owned()
                },
            )
        },
        None => err(quoted_with(&v, " is not true or false.")),
    }
}

pub fn execute_fps_sync(value: &str) -> (r: CommandResponse)
    ensures
        responds(r, fps_sync_outcome(value@)),
{
    let v = chars_of(value);
    match parse_bool(&v) {
        Some(enabled) => CommandResponse {
            text: if enabled {
                "Vsync enabled.".to_owned()
            } else {
                "Vsync disabled.".to_owned()
            },
            kind: MessageKind::CommandOk,
            set_vsync: Some(enabled),
        },
        None => err(quoted_with(&v, " is not true or false.")),
    }
}

/// `/settings rd <value>`.
fn execute_rd(value: &Vec<char>, streamer: &mut ChunkStreamer) -> (r: CommandResponse)
    requires
        radius_fits(*old(streamer), rd_outcome(value@).2),
    ensures
        responds(r, rd_outcome(value@)),
        streamer_after(*old(streamer), *final(streamer), rd_outcome(value@).2),
{
    match parse_i32(value) {
        Some(n) => if MIN_RENDER_DISTANCE <= n && n <= MAX_RENDER_DISTANCE {
            streamer.set_load_radius(n);
            let mut t: Vec<char> = Vec::new();
            push_str(&mut t, "Render distance set to ");
            push_decimal_signed(&mut t, n as i64);
            push_str(&mut t, " chunks.");
            assert(t@ =~= "Render distance set to "@ + decimal_signed(n as int) + " chunks."@);
            ok(string_from_chars(&t))
        } else {
            let mut t: Vec<char> = Vec::new();
            push_str(&mut t, "Render distance must be between ");
            push_decimal_signed(&mut t, MIN_RENDER_DISTANCE as i64);
            push_str(&mut t, " and ");
            push_decimal_signed(&mut t, MAX_RENDER_DISTANCE as i64);
            push_str(&mut t, " chunks (got ");
            push_decimal_signed(&mut t, n as i64);
            push_str(&mut t, ").");
            assert(t@ =~= "Render distance must be between "@ + decimal_signed(MIN_RENDER_DISTANCE as int)
                + " and "@ + decimal_signed(MAX_RENDER_DISTANCE as int) + " chunks (got "@
                + decimal_signed(n as int) + ")."@);
            err(string_from_chars(&t))
        },
        None => err(quoted_with(value, " is not a number.")),
    }
}

/// `<prefix><word><suffix>` as text.
fn framed(prefix: &str, word: &Vec<char>, suffix: &str) -> (r: String)
    ensures
        r@ == prefix@ + word@ + suffix@,
{
    let mut t: Vec<char> = Vec::new();
    push_str(&mut t, prefix);
    push_chars(&mut t, word);
    push_str(&mut t, suffix);
    assert(t@ =~= prefix@ + word@ + suffix@);
    string_from_chars(&t)
}

/// `/settings` followed by `words[1..]` (`words[0]` is `settings`).
pub fn execute_settings(words: &Vec<Vec<char>>, streamer: &mut ChunkStreamer, fps: &mut FpsCounter) -> (r:
    CommandResponse)
    requires
        words@.len() >= 1,
        radius_fits(*old(streamer), settings_outcome(words@.map_values(|w: Vec<char>| w@).drop_first()).2),
    ensures
        responds(r, settings_outcome(words@.map_values(|w: Vec<char>| w@).drop_first())),
        streamer_after(
            *old(streamer),
            *final(streamer),
            settings_outcome(words@.map_values(|w: Vec<char>| w@).drop_first()).2,
        ),
        fps_after(*old(fps), *final(fps), settings_outcome(words@.map_values(|w: Vec<char>| w@).drop_first()).2),
{
    let ghost args = words@.map_values(|w: Vec<char>| w@).drop_first();
    let n = words.len() - 1;
    assert(args.len() == n);
    assert(forall|i: int| 0 <= i < n ==> #[trigger] args[i] == words@[i + 1]@);
    if n == 2 && word_is(&words[1], "rd") {
        return execute_rd(&words[2], streamer);
    }
    if n == 1 && word_is(&words[1], "rd") {
        return err("Usage: /settings rd <chunks>".to_owned());
    }
    if n >= 1 && word_is(&words[1], "fps") {
        if n >= 2 {
            let is_max = word_is(&words[2], "max");
            let is_counter = word_is(&words[2], "counter");
            let is_sync = word_is(&words[2], "sync");
            if n == 3 && is_max {
                let value = string_from_chars(&words[3]);
                return execute_fps_max(value.as_str(), fps);
            }
            if n == 2 && is_max {
                return err("Usage: /settings fps max <true|false> or /settings fps max <number>".to_owned());
            }
            if n == 3 && is_counter {
                let value = string_from_chars(&words[3]);
                return execute_fps_counter(value.as_str(), fps);
            }
            if n == 2 && is_counter {
                return err("Usage: /settings fps counter <true|false>".to_owned());
            }
            if n == 3 && is_sync {
                let value = string_from_chars(&words[3]);
                return execute_fps_sync(value.as_str());
            }
            if n == 2 && is_sync {
                return err("Usage: /settings fps sync <true|false>".to_owned());
            }
            return err(framed("Unknown fps subcommand: ", &words[2], ". Available: max, counter, sync"));
        }
        return err("Usage: /settings fps <max|counter|sync> ...".to_owned());
    }
    if n >= 1 {
        return err(framed("Unknown settings subcommand: ", &words[1], ". Available: rd, fps"));
    }
    err(SETTINGS_USAGE.to_owned())
}

/// Executes a chat line that starts with `/` (the leading slash is optional
/// here: callers may strip it themselves) against live game state.
pub fn execute(input: &str, streamer: &mut ChunkStreamer, fps: &mut FpsCounter) -> (r: CommandResponse)
    requires
        radius_fits(*old(streamer), command_outcome(input@).2),
    ensures
        responds(r, command_outcome(input@)),
        streamer_after(*old(streamer), *final(streamer), command_outcome(input@).2),
        fps_after(*old(fps), *final(fps), command_outcome(input@).2),
{
    let chars = chars_of(input);
    let body = if chars.len() > 0 && chars[0] == '/' {
        slice_chars(&chars, 1, chars.len())
    } else {
        chars
    };
    assert(body@ == strip_slash(input@));
    let words = split_whitespace(&body);
    let ghost ws = words@.map_values(|w: Vec<char>| w@);
    if words.len() == 0 {
        return err("Unknown command. Type /help for a list of commands.".to_owned());
    }
    assert(ws[0] == words@[0]@);
    if word_is(&words[0], "settings") {
        return execute_settings(&words, streamer, fps);
    }
    if word_is(&words[0], "help") {
        return ok(HELP_TEXT.to_owned());
    }
    err(framed("Unknown command: /", &words[0], ". Type /help for a list of commands."))
}


/// A command's literal token sequence plus an optional trailing argument
/// hint, e.g. `["settings", "rd"]` + `Some("<chunks>")` for
/// `/settings rd <chunks>`.
pub struct CommandSpec {
    pub tokens: Vec<&'static str>,
    pub arg_hint: Option<&'static str>,
}

impl CommandSpec {
    pub open spec fn tokens_view(&self) -> Seq<Seq<char>> {
        self.tokens@.map_values(|t: &str| t@)
    }

    pub open spec fn hint_view(&self) -> Option<Seq<char>> {
        match self.arg_hint {
            Some(h) => Some(h@),
            None => None,
        }
    }
}

/// The commands that completion knows, as (tokens, argument hint).
pub open spec fn command_table() -> Seq<(Seq<Seq<char>>, Option<Seq<char>>)> {
    seq![
        (seq!["help"@], None),
        (seq!["settings"@, "rd"@], Some("<chunks>"@)),
        (seq!["settings"@, "fps"@, "max"@], Some("<true|false|number>"@)),
        (seq!["settings"@, "fps"@, "counter"@], Some("<true|false>"@)),
        (seq!["settings"@, "fps"@, "sync"@], Some("<true|false>"@)),
    ]
}

fn spec_entry(tokens: Vec<&'static str>, arg_hint: Option<&'static str>) -> (r: CommandSpec)
    ensures
        r.tokens == tokens,
        r.arg_hint == arg_hint,
{
    CommandSpec { tokens, arg_hint }
}

/// The command table, in order.
pub fn command_specs() -> (r: Vec<CommandSpec>)
    ensures
        r@.len() == command_table().len(),
        forall|i: int|
            0 <= i < r@.len() ==> (#[trigger] r@[i]).tokens_view() == command_table()[i].0 && r@[i].hint_view()
                == command_table()[i].1,
{
    let mut r: Vec<CommandSpec> = Vec::new();
    r.push(spec_entry(vec!["help"], None));
    r.push(spec_entry(vec!["settings", "rd"], Some("<chunks>")));
    r.push(spec_entry(vec!["settings", "fps", "max"], Some("<true|false|number>")));
    r.push(spec_entry(vec!["settings", "fps", "counter"], Some("<true|false>")));
    r.push(spec_entry(vec!["settings", "fps", "sync"], Some("<true|false>")));
    assert(r@[0].tokens_view() =~= command_table()[0].0);
    assert(r@[1].tokens_view() =~= command_table()[1].0);
    assert(r@[2].tokens_view() =~= command_table()[2].0);
    assert(r@[3].tokens_view() =~= command_table()[3].0);
    assert(r@[4].tokens_view() =~= command_table()[4].0);
    r
}

/// A Minecraft-style command suggestion: gray "ghost" text to display right
/// after what the player has typed, and (separately) the literal text a Tab
/// press should insert, which excludes argument placeholders like
/// `<chunks>`, since those aren't real input.
pub struct Suggestion {
    pub ghost_tail: String,
    pub tab_insert: Option<String>,
}

/// A suggestion as the contracts see it.
pub open spec fn suggestion_view(s: Option<Suggestion>) -> Option<(Seq<char>, Option<Seq<char>>)> {
    match s {
        Some(s) => Some(
            (
                s.ghost_tail@,
                match s.tab_insert {
                    Some(t) => Some(t@),
                    None => None,
                },
            ),
        ),
        None => None,
    }
}

/// `" t1 t2 ..."`: each token preceded by a space.
pub open spec fn spaced(ts: Seq<Seq<char>>) -> Seq<char>
    decreases ts.len(),
{
    if ts.len() == 0 {
        seq![]
    } else {
        spaced(ts.drop_last()) + seq![' '] + ts.last()
    }
}

/// `" hint"`, or nothing.
pub open spec fn hint_tail(hint: Option<Seq<char>>) -> Seq<char> {
    match hint {
        Some(h) => seq![' '] + h,
        None => seq![],
    }
}

/// The suggestion one command gives for the completed `words` and the word
/// being typed, `partial`: the rest of the command while the typed words
/// are a prefix of it, only its argument hint once all of it is typed, and
/// nothing mid-argument or on a mismatch.
pub open spec fn suggestion_for(
    tokens: Seq<Seq<char>>,
    hint: Option<Seq<char>>,
    words: Seq<Seq<char>>,
    partial: Seq<char>,
) -> Option<(Seq<char>, Option<Seq<char>>)> {
    if words.len() > tokens.len() || words != tokens.take(words.len() as int) {
        None
    } else if words.len() < tokens.len() {
        let next = tokens[words.len() as int];
        if partial.len() <= next.len() && next.take(partial.len() as int) == partial {
            let missing = next.skip(partial.len() as int);
            Some(
                (
                    missing + spaced(tokens.skip(words.len() + 1 as int)) + hint_tail(hint),
                    Some(missing.push(' ')),
                ),
            )
        } else {
            None
        }
    } else if partial.len() > 0 {
        None
    } else {
        match hint {
            Some(h) => Some((h, None)),
            None => None,
        }
    }
}

/// Whether `p` is a prefix of `t`.
fn starts_with(t: &Vec<char>, p: &Vec<char>) -> (r: bool)
    ensures
        r == (p@.len() <= t@.len() && t@.take(p@.len() as int) == p@),
{
    if p.len() > t.len() {
        return false;
    }
    let mut i: usize = 0;
    while i < p.len()
        invariant
            i <= p.len() <= t.len(),
            forall|j: int| 0 <= j < i ==> t@[j] == p@[j],
        decreases p.len() - i,
    {
        if t[i] != p[i] {
            assert(t@.take(p@.len() as int)[i as int] != p@[i as int]);
            return false;
        }
        i = i + 1;
    }
    assert(t@.take(p@.len() as int) =~= p@);
    true
}

pub fn suggest_for_spec(spec: &CommandSpec, words: &Vec<Vec<char>>, partial: &Vec<char>) -> (r: Option<
    Suggestion,
>)
    ensures
        suggestion_view(r) == suggestion_for(
            spec.tokens_view(),
            spec.hint_view(),
            words@.map_values(|w: Vec<char>| w@),
            partial@,
        ),
{
    let ghost tokens = spec.tokens_view();
    let ghost ws = words@.map_values(|w: Vec<char>| w@);
    if words.len() > spec.tokens.len() {
        return None;
    }
    let mut i: usize = 0;
    while i < words.len()
        invariant
            i <= words@.len() <= spec.tokens@.len(),
            tokens == spec.tokens_view(),
            ws == words@.map_values(|w: Vec<char>| w@),
            forall|j: int| 0 <= j < i ==> ws[j] == tokens[j],
        decreases words@.len() - i,
    {
        if !word_is(&words[i], spec.tokens[i]) {
            proof {
                assert(ws[i as int] != tokens.take(ws.len() as int)[i as int]);
            }
            return None;
        }
        i = i + 1;
    }
    assert(ws =~= tokens.take(ws.len() as int));
    if words.len() < spec.tokens.len() {
        let next = chars_of(spec.tokens[words.len()]);
        if !starts_with(&next, partial) {
            return None;
        }
        let missing = slice_chars(&next, partial.len(), next.len());
        assert(missing@ =~= next@.skip(partial@.len() as int));
        let mut ghost_tail: Vec<char> = Vec::new();
        push_chars(&mut ghost_tail, &missing);
        let start = words.len() + 1;
        let mut k: usize = start;
        assert(tokens.subrange(start as int, start as int) =~= Seq::<Seq<char>>::empty());
        while k < spec.tokens.len()
            invariant
                start <= k <= spec.tokens@.len(),
                tokens == spec.tokens_view(),
                ghost_tail@ == missing@ + spaced(tokens.subrange(start as int, k as int)),
            decreases spec.tokens@.len() - k,
        {
            ghost_tail.push(' ');
            push_str(&mut ghost_tail, spec.tokens[k]);
            assert(tokens.subrange(start as int, k + 1).drop_last() =~= tokens.subrange(start as int, k as int));
            assert(ghost_tail@ =~= missing@ + spaced(tokens.subrange(start as int, k + 1)));
            k = k + 1;
        }
        assert(tokens.subrange(start as int, tokens.len() as int) =~= tokens.skip(start as int));
        let ghost before_hint = ghost_tail@;
        match spec.arg_hint {
            Some(hint) => {
                ghost_tail.push(' ');
                push_str(&mut ghost_tail, hint);
                assert(ghost_tail@ =~= before_hint + hint_tail(spec.hint_view()));
            },
            None => {
                assert(ghost_tail@ =~= before_hint + hint_tail(spec.hint_view()));
            },
        }
        let mut tab: Vec<char> = Vec::new();
        push_chars(&mut tab, &missing);
        tab.push(' ');
        assert(tab@ =~= missing@.push(' '));
        return Some(Suggestion { ghost_tail: string_from_chars(&ghost_tail), tab_insert: Some(string_from_chars(&tab)) });
    }
    if partial.len() > 0 {
        return None;
    }
    match spec.arg_hint {
        Some(hint) => Some(Suggestion { ghost_tail: hint.to_owned(), tab_insert: None }),
        None => None,
    }
}

/// The suggestions of the first `n` commands of `table` that give one.
pub open spec fn suggestions_upto(
    table: Seq<(Seq<Seq<char>>, Option<Seq<char>>)>,
    words: Seq<Seq<char>>,
    partial: Seq<char>,
    n: int,
) -> Seq<(Seq<char>, Option<Seq<char>>)>
    decreases n,
{
    if n <= 0 {
        seq![]
    } else {
        let rest = suggestions_upto(table, words, partial, n - 1);
        match suggestion_for(table[n - 1].0, table[n - 1].1, words, partial) {
            Some(s) => rest.push(s),
            None => rest,
        }
    }
}

/// The completed words of a command line body: its words, less the one
/// being typed unless the body ends with a space.
pub open spec fn typed_words(body: Seq<char>) -> Seq<Seq<char>> {
    let all = split_ws(body);
    if body.len() == 0 || body.last() == ' ' || all.len() == 0 {
        all
    } else {
        all.drop_last()
    }
}

/// The word being typed at the end of a command line body (empty after a
/// space).
pub open spec fn typed_partial(body: Seq<char>) -> Seq<char> {
    let all = split_ws(body);
    if body.len() == 0 || body.last() == ' ' || all.len() == 0 {
        seq![]
    } else {
        all.last()
    }
}

/// The completion for a chat line: for a line starting with `/`, the one
/// suggestion of the one command that gives one; nothing for plain text,
/// when no command matches, or when several still do.
pub open spec fn suggest_spec(input: Seq<char>) -> Option<(Seq<char>, Option<Seq<char>>)> {
    if input.len() == 0 || input[0] != '/' {
        None
    } else {
        let body = input.drop_first();
        let ms = suggestions_upto(
            command_table(),
            typed_words(body),
            typed_partial(body),
            command_table().len() as int,
        );
        if ms.len() == 1 {
            Some(ms[0])
        } else {
            None
        }
    }
}

/// Suggests a completion for a chat line starting with `/`, matching how
/// Minecraft shows the rest of a matching command in gray after the cursor.
/// Returns `None` for plain (non-command) text, when nothing matches, or
/// when multiple commands still match ambiguously (e.g. bare "/").
pub fn suggest(input: &str) -> (r: Option<Suggestion>)
    ensures
        suggestion_view(r) == suggest_spec(input@),
{
    let chars = chars_of(input);
    if chars.len() == 0 || chars[0] != '/' {
        return None;
    }
    let body = slice_chars(&chars, 1, chars.len());
    assert(body@ =~= input@.drop_first());
    let ends_with_space = body.len() == 0 || body[body.len() - 1] == ' ';
    let mut words = split_whitespace(&body);
    let ghost all = words@.map_values(|w: Vec<char>| w@);
    let partial: Vec<char> = if ends_with_space {
        Vec::new()
    } else {
        match words.pop() {
            Some(w) => w,
            None => Vec::new(),
        }
    };
    proof {
        assert(words@.map_values(|w: Vec<char>| w@) =~= typed_words(body@));
        assert(partial@ =~= typed_partial(body@));
    }
    let specs = command_specs();
    let ghost ws = words@.map_values(|w: Vec<char>| w@);
    let mut first: Option<Suggestion> = None;
    let mut count: usize = 0;
    let mut i: usize = 0;
    while i < specs.len()
        invariant
            i <= specs@.len() == command_table().len(),
            forall|j: int|
                0 <= j < specs@.len() ==> (#[trigger] specs@[j]).tokens_view() == command_table()[j].0
                    && specs@[j].hint_view() == command_table()[j].1,
            ws == words@.map_values(|w: Vec<char>| w@),
            count == suggestions_upto(command_table(), ws, partial@, i as int).len(),
            count <= i,
            count > 0 ==> suggestion_view(first) == Some(
                suggestions_upto(command_table(), ws, partial@, i as int)[0],
            ),
        decreases specs@.len() - i,
    {
        let s = suggest_for_spec(&specs[i], &words, &partial);
        let ghost prev = suggestions_upto(command_table(), ws, partial@, i as int);
        match s {
            Some(found) => {
                if count == 0 {
                    first = Some(found);
                }
                count = count + 1;
            },
            None => {},
        }
        i = i + 1;
    }
    if count == 1 {
        first
    } else {
        None
    }
}


/// The leading `/` of a command is optional: a command without one has the
/// same outcome (response text, kind and effect on the game state) as the
/// same command with one.
pub proof fn law_leading_slash_optional(command: Seq<char>)
    requires
        command.len() == 0 || command[0] != '/',
    ensures
        command_outcome(seq!['/'] + command) == command_outcome(command),
{
    assert((seq!['/'] + command).drop_first() =~= command);
}

/// A rejected command changes nothing: every command outcome of kind
/// `CommandError` has no effect on the game state (so `execute` leaves the
/// streamer and the frame counter as they were).
pub proof fn law_rejected_command_changes_nothing(input: Seq<char>)
    ensures
        command_outcome(input).1 == MessageKind::CommandError ==> command_outcome(input).2 is Nothing,
{
}

} // verus!
