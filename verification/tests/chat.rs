use minecraft_but_optimized::chat::session::{handle_submitted_line, tab_complete, type_text};
use minecraft_but_optimized::chat::{passive_window, Chat, MessageKind, MAX_LOG_LEN, PASSIVE_LINE_COUNT};
use minecraft_but_optimized::fps::FpsCounter;
use minecraft_but_optimized::hud::{blink_on, kind_color};
use minecraft_but_optimized::world::streaming::ChunkStreamer;

#[test]
fn open_prefills_input_and_close_clears_it() {
    let mut chat = Chat::new();
    chat.open("/");
    assert!(chat.is_open);
    assert_eq!(chat.input, "/");

    chat.close();
    assert!(!chat.is_open);
    assert!(chat.input.is_empty());
}

#[test]
fn submit_returns_trimmed_line_and_closes() {
    let mut chat = Chat::new();
    chat.open("");
    chat.push_char('h');
    chat.push_char('i');

    let submitted = chat.submit();
    assert_eq!(submitted.as_deref(), Some("hi"));
    assert!(!chat.is_open);
}

#[test]
fn submitting_blank_input_closes_without_a_message() {
    let mut chat = Chat::new();
    chat.open("");
    chat.push_char(' ');

    assert_eq!(chat.submit(), None);
    assert!(!chat.is_open);
}

#[test]
fn backspace_removes_last_character() {
    let mut chat = Chat::new();
    chat.open("ab");
    chat.backspace();
    assert_eq!(chat.input, "a");
}

#[test]
fn history_prev_and_next_cycle_through_sent_messages() {
    let mut chat = Chat::new();
    chat.open("");
    chat.push_char('a');
    chat.submit();
    chat.open("");
    chat.push_char('b');
    chat.submit();

    chat.open("");
    chat.history_prev();
    assert_eq!(chat.input, "b");
    chat.history_prev();
    assert_eq!(chat.input, "a");
    chat.history_prev(); // no more history, stays on oldest
    assert_eq!(chat.input, "a");

    chat.history_next();
    assert_eq!(chat.input, "b");
    chat.history_next();
    assert_eq!(chat.input, "");
}

#[test]
fn recent_messages_stay_capped_at_max_log_len() {
    let mut chat = Chat::new();
    for i in 0..(MAX_LOG_LEN + 10) {
        chat.push_message(format!("msg {i}"), MessageKind::Chat);
    }
    assert_eq!(chat.log_len(), MAX_LOG_LEN);
    assert_eq!(chat.message(0).text, format!("msg {}", 10));
}

#[test]
fn submit_trims_both_ends_and_records_history() {
    let mut chat = Chat::new();
    chat.open("  \t hello world \n");
    assert_eq!(chat.submit().as_deref(), Some("hello world"));
    chat.open("");
    chat.history_prev();
    assert_eq!(chat.input, "hello world");
}

#[test]
fn backspace_on_empty_input_does_nothing() {
    let mut chat = Chat::new();
    chat.open("");
    chat.backspace();
    assert_eq!(chat.input, "");
}

#[test]
fn history_next_without_recall_keeps_the_input() {
    let mut chat = Chat::new();
    chat.open("typed");
    chat.history_next();
    assert_eq!(chat.input, "typed");
    chat.history_prev();
    assert_eq!(chat.input, "typed");
}

#[test]
fn scroll_stays_inside_the_log() {
    let mut chat = Chat::new();
    for i in 0..30 {
        chat.push_message(format!("line {i}"), MessageKind::Chat);
    }
    chat.open("");
    assert_eq!(chat.open_window(), (10, 30));
    for _ in 0..40 {
        chat.scroll_up();
    }
    assert_eq!(chat.open_window(), (0, 1));
    chat.scroll_down();
    assert_eq!(chat.open_window(), (0, 2));
    chat.push_message("new".to_string(), MessageKind::Chat);
    assert_eq!(chat.open_window(), (11, 31));
}

#[test]
fn apply_completion_appends_text() {
    let mut chat = Chat::new();
    chat.open("/settings fps m");
    chat.apply_completion("ax ");
    assert_eq!(chat.input, "/settings fps max ");
}

#[test]
fn tab_completes_an_unambiguous_command() {
    let mut chat = Chat::new();
    chat.open("/settings r");
    tab_complete(&mut chat);
    assert_eq!(chat.input, "/settings rd ");
    tab_complete(&mut chat);
    assert_eq!(chat.input, "/settings rd ");
}

#[test]
fn typed_text_skips_control_characters() {
    let mut chat = Chat::new();
    chat.open("");
    type_text(&mut chat, "a\u{8}b\r\u{7f}c\u{85}é");
    assert_eq!(chat.input, "abcé");
}

#[test]
fn submitted_command_is_echoed_then_answered_line_by_line() {
    let mut chat = Chat::new();
    let mut streamer = ChunkStreamer::new(0, 6, 8);
    let mut fps = FpsCounter::new();
    let vsync = handle_submitted_line(&mut chat, &mut streamer, &mut fps, "/help".to_string());
    assert_eq!(vsync, None);
    assert_eq!(chat.log_len(), 7);
    assert_eq!(chat.message(0).text, "/help");
    assert_eq!(chat.message(0).kind, MessageKind::CommandEcho);
    assert_eq!(chat.message(1).text, "Commands:");
    assert_eq!(chat.message(1).kind, MessageKind::CommandOk);
    assert_eq!(chat.message(6).text, "/help");
}

#[test]
fn submitted_vsync_command_reports_its_effect() {
    let mut chat = Chat::new();
    let mut streamer = ChunkStreamer::new(0, 6, 8);
    let mut fps = FpsCounter::new();
    let vsync = handle_submitted_line(&mut chat, &mut streamer, &mut fps, "/settings fps sync false".to_string());
    assert_eq!(vsync, Some(false));
    let vsync = handle_submitted_line(&mut chat, &mut streamer, &mut fps, "/settings rd 9".to_string());
    assert_eq!(vsync, None);
    assert_eq!(streamer.load_radius(), 9);
    assert_eq!(streamer.unload_radius(), 11);
}

#[test]
fn submitted_plain_text_is_logged_as_chat() {
    let mut chat = Chat::new();
    let mut streamer = ChunkStreamer::new(0, 6, 8);
    let mut fps = FpsCounter::new();
    let vsync = handle_submitted_line(&mut chat, &mut streamer, &mut fps, "hello there".to_string());
    assert_eq!(vsync, None);
    assert_eq!(chat.log_len(), 1);
    assert_eq!(chat.message(0).text, "hello there");
    assert_eq!(chat.message(0).kind, MessageKind::Chat);
    assert_eq!(streamer.load_radius(), 6);
}

#[test]
fn message_kinds_have_their_colors() {
    assert_eq!(kind_color(MessageKind::Chat), [255, 255, 255]);
    assert_eq!(kind_color(MessageKind::CommandEcho), [170, 170, 170]);
    assert_eq!(kind_color(MessageKind::CommandOk), [255, 255, 85]);
    assert_eq!(kind_color(MessageKind::CommandError), [255, 85, 85]);
}

#[test]
fn cursor_blinks_every_half_second() {
    assert!(blink_on(Some(0)));
    assert!(blink_on(Some(499)));
    assert!(!blink_on(Some(500)));
    assert!(!blink_on(Some(999)));
    assert!(blink_on(Some(1000)));
    assert!(blink_on(None));
}

#[test]
fn open_chat_shows_recent_messages_at_full_opacity() {
    let mut chat = Chat::new();
    chat.push_message("hello".to_string(), MessageKind::Chat);
    chat.open("");

    // While open, the window of shown messages is drawn at full opacity.
    let (start, end) = chat.open_window();
    assert_eq!(end - start, 1);
    assert_eq!(chat.message(start).text, "hello");
}

#[test]
fn closed_chat_shows_the_newest_unfaded_run_of_at_most_ten() {
    assert_eq!(passive_window(&vec![]), (0, 0));
    assert_eq!(passive_window(&vec![true, false, true, true]), (2, 4));
    assert_eq!(passive_window(&vec![true, true, false]), (3, 3));
    let all = vec![true; 25];
    assert_eq!(passive_window(&all), (25 - PASSIVE_LINE_COUNT, 25));
    assert_eq!(passive_window(&vec![true; 4]), (0, 4));
}
