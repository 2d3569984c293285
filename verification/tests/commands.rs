use minecraft_but_optimized::chat::commands::{execute, suggest, DEFAULT_CAPPED_FPS};
use minecraft_but_optimized::chat::MessageKind;
use minecraft_but_optimized::fps::FpsCounter;
use minecraft_but_optimized::world::streaming::ChunkStreamer;

fn streamer() -> ChunkStreamer {
    ChunkStreamer::new(0, 6, 8)
}

#[test]
fn settings_rd_sets_load_radius() {
    let mut streamer = streamer();
    let mut fps = FpsCounter::new();
    let response = execute("/settings rd 10", &mut streamer, &mut fps);
    assert_eq!(response.text, "Render distance set to 10 chunks.");
    assert!(matches!(response.kind, MessageKind::CommandOk));
    assert_eq!(streamer.load_radius(), 10);
}

#[test]
fn settings_rd_rejects_out_of_range() {
    let mut streamer = streamer();
    let mut fps = FpsCounter::new();
    let response = execute("/settings rd 999", &mut streamer, &mut fps);
    assert!(matches!(response.kind, MessageKind::CommandError));
    assert_eq!(streamer.load_radius(), 6, "invalid input must not change state");
}

#[test]
fn settings_rd_rejects_non_numeric() {
    let mut streamer = streamer();
    let mut fps = FpsCounter::new();
    let response = execute("/settings rd banana", &mut streamer, &mut fps);
    assert!(matches!(response.kind, MessageKind::CommandError));
    assert_eq!(streamer.load_radius(), 6);
}

#[test]
fn settings_rd_missing_argument_shows_usage() {
    let mut streamer = streamer();
    let mut fps = FpsCounter::new();
    let response = execute("/settings rd", &mut streamer, &mut fps);
    assert_eq!(response.text, "Usage: /settings rd <chunks>");
}

#[test]
fn unknown_command_is_reported() {
    let mut streamer = streamer();
    let mut fps = FpsCounter::new();
    let response = execute("/foo", &mut streamer, &mut fps);
    assert!(matches!(response.kind, MessageKind::CommandError));
    assert!(response.text.contains("/foo"));
}

#[test]
fn leading_slash_is_optional() {
    let mut streamer = streamer();
    let mut fps = FpsCounter::new();
    let response = execute("settings rd 4", &mut streamer, &mut fps);
    assert_eq!(streamer.load_radius(), 4);
    let _ = response;
}

#[test]
fn fps_max_true_caps_at_default() {
    let mut streamer = streamer();
    let mut fps = FpsCounter::new();
    let response = execute("/settings fps max true", &mut streamer, &mut fps);
    assert_eq!(response.text, "FPS capped at 60.");
    assert_eq!(fps.cap, Some(DEFAULT_CAPPED_FPS));
}

#[test]
fn fps_max_false_uncaps() {
    let mut streamer = streamer();
    let mut fps = FpsCounter::new();
    fps.cap = Some(30);
    let response = execute("/settings fps max false", &mut streamer, &mut fps);
    assert_eq!(response.text, "FPS uncapped.");
    assert_eq!(fps.cap, None);
}

#[test]
fn fps_max_number_sets_exact_cap() {
    let mut streamer = streamer();
    let mut fps = FpsCounter::new();
    let response = execute("/settings fps max 144", &mut streamer, &mut fps);
    assert_eq!(response.text, "FPS capped at 144.");
    assert_eq!(fps.cap, Some(144));
}

#[test]
fn fps_max_rejects_out_of_range_number() {
    let mut streamer = streamer();
    let mut fps = FpsCounter::new();
    let response = execute("/settings fps max 5000", &mut streamer, &mut fps);
    assert!(matches!(response.kind, MessageKind::CommandError));
    assert_eq!(fps.cap, None, "invalid input must not change state");
}

#[test]
fn fps_max_rejects_garbage() {
    let mut streamer = streamer();
    let mut fps = FpsCounter::new();
    let response = execute("/settings fps max banana", &mut streamer, &mut fps);
    assert!(matches!(response.kind, MessageKind::CommandError));
    assert_eq!(fps.cap, None);
}

#[test]
fn fps_counter_true_shows_it() {
    let mut streamer = streamer();
    let mut fps = FpsCounter::new();
    fps.show = false;
    let response = execute("/settings fps counter true", &mut streamer, &mut fps);
    assert_eq!(response.text, "FPS counter shown.");
    assert!(fps.show);
}

#[test]
fn fps_counter_false_hides_it() {
    let mut streamer = streamer();
    let mut fps = FpsCounter::new();
    let response = execute("/settings fps counter false", &mut streamer, &mut fps);
    assert_eq!(response.text, "FPS counter hidden.");
    assert!(!fps.show);
}

#[test]
fn fps_counter_rejects_garbage() {
    let mut streamer = streamer();
    let mut fps = FpsCounter::new();
    let response = execute("/settings fps counter banana", &mut streamer, &mut fps);
    assert!(matches!(response.kind, MessageKind::CommandError));
    assert!(fps.show, "invalid input must not change state");
}

#[test]
fn fps_sync_true_reports_vsync_effect() {
    let mut streamer = streamer();
    let mut fps = FpsCounter::new();
    let response = execute("/settings fps sync true", &mut streamer, &mut fps);
    assert_eq!(response.text, "Vsync enabled.");
    assert_eq!(response.set_vsync, Some(true));
}

#[test]
fn fps_sync_false_reports_vsync_effect() {
    let mut streamer = streamer();
    let mut fps = FpsCounter::new();
    let response = execute("/settings fps sync false", &mut streamer, &mut fps);
    assert_eq!(response.text, "Vsync disabled.");
    assert_eq!(response.set_vsync, Some(false));
}

#[test]
fn fps_sync_rejects_garbage() {
    let mut streamer = streamer();
    let mut fps = FpsCounter::new();
    let response = execute("/settings fps sync banana", &mut streamer, &mut fps);
    assert!(matches!(response.kind, MessageKind::CommandError));
    assert_eq!(response.set_vsync, None);
}

#[test]
fn bare_slash_is_ambiguous_between_help_and_settings() {
    assert!(suggest("/").is_none());
}

#[test]
fn settings_prefix_is_ambiguous_between_rd_and_fps() {
    assert!(suggest("/settings").is_none());
    assert!(suggest("/settings ").is_none());
}

#[test]
fn settings_r_disambiguates_to_rd() {
    let s = suggest("/settings r").unwrap();
    assert_eq!(s.ghost_tail, "d <chunks>");
}

#[test]
fn settings_fps_prefix_is_ambiguous_among_max_counter_sync() {
    assert!(suggest("/settings f").is_none());
    assert!(suggest("/settings fps").is_none());
    assert!(suggest("/settings fps ").is_none());
}

#[test]
fn settings_fps_m_disambiguates_to_max() {
    let s = suggest("/settings fps m").unwrap();
    assert_eq!(s.ghost_tail, "ax <true|false|number>");
    assert_eq!(s.tab_insert.as_deref(), Some("ax "));
}

#[test]
fn settings_fps_c_disambiguates_to_counter() {
    let s = suggest("/settings fps c").unwrap();
    assert_eq!(s.ghost_tail, "ounter <true|false>");
    assert_eq!(s.tab_insert.as_deref(), Some("ounter "));
}

#[test]
fn settings_fps_s_disambiguates_to_sync() {
    let s = suggest("/settings fps s").unwrap();
    assert_eq!(s.ghost_tail, "ync <true|false>");
    assert_eq!(s.tab_insert.as_deref(), Some("ync "));
}

#[test]
fn partial_token_suggests_rest_of_that_word() {
    let s = suggest("/h").unwrap();
    assert_eq!(s.ghost_tail, "elp");
    assert_eq!(s.tab_insert.as_deref(), Some("elp "));
}

#[test]
fn trailing_space_after_full_command_suggests_arg_hint_only() {
    let s = suggest("/settings rd ").unwrap();
    assert_eq!(s.ghost_tail, "<chunks>");
    assert_eq!(s.tab_insert, None, "a placeholder hint isn't real text to insert");
}

#[test]
fn mid_argument_has_no_suggestion() {
    assert!(suggest("/settings rd 8").is_none());
}

#[test]
fn unmatched_prefix_has_no_suggestion() {
    assert!(suggest("/xyz").is_none());
}

#[test]
fn non_command_text_has_no_suggestion() {
    assert!(suggest("hello").is_none());
}

#[test]
fn every_usage_and_error_message_is_exact() {
    let mut s = streamer();
    let mut fps = FpsCounter::new();
    let cases = [
        ("/settings rd 0", "Render distance must be between 1 and 512 chunks (got 0)."),
        ("/settings rd -3", "Render distance must be between 1 and 512 chunks (got -3)."),
        ("/settings rd banana", "'banana' is not a number."),
        ("/settings fps max", "Usage: /settings fps max <true|false> or /settings fps max <number>"),
        ("/settings fps max 0", "FPS cap must be between 1 and 1000 (got 0)."),
        ("/settings fps max -1", "'-1' is not true, false, or a number."),
        ("/settings fps counter", "Usage: /settings fps counter <true|false>"),
        ("/settings fps counter yes", "'yes' is not true or false."),
        ("/settings fps sync", "Usage: /settings fps sync <true|false>"),
        ("/settings fps sync 1", "'1' is not true or false."),
        ("/settings fps warp 3", "Unknown fps subcommand: warp. Available: max, counter, sync"),
        ("/settings fps max 10 20", "Unknown fps subcommand: max. Available: max, counter, sync"),
        ("/settings fps", "Usage: /settings fps <max|counter|sync> ..."),
        ("/settings volume 3", "Unknown settings subcommand: volume. Available: rd, fps"),
        ("/settings rd 4 5", "Unknown settings subcommand: rd. Available: rd, fps"),
        (
            "/settings",
            "Usage:\n/settings rd <chunks>\n/settings fps max <true|false|number>\n/settings fps counter <true|false>\n/settings fps sync <true|false>",
        ),
        ("/", "Unknown command. Type /help for a list of commands."),
        ("   ", "Unknown command. Type /help for a list of commands."),
        ("/foo bar", "Unknown command: /foo. Type /help for a list of commands."),
    ];
    for (input, expected) in cases {
        let r = execute(input, &mut s, &mut fps);
        assert_eq!(r.text, expected, "input {input:?}");
        assert_eq!(r.kind, MessageKind::CommandError, "input {input:?}");
        assert_eq!(r.set_vsync, None);
    }
    assert_eq!(s.load_radius(), 6);
    assert_eq!(s.unload_radius(), 8);
    assert_eq!(fps.cap, None);
    assert!(fps.show);
}

#[test]
fn help_lists_every_command() {
    let mut s = streamer();
    let mut fps = FpsCounter::new();
    let r = execute("help", &mut s, &mut fps);
    assert_eq!(
        r.text,
        "Commands:\n/settings rd <chunks>\n/settings fps max <true|false|number>\n/settings fps counter <true|false>\n/settings fps sync <true|false>\n/help"
    );
    assert_eq!(r.kind, MessageKind::CommandOk);
}

#[test]
fn numbers_follow_rust_integer_parsing() {
    let mut s = streamer();
    let mut fps = FpsCounter::new();
    let r = execute("/settings rd +12", &mut s, &mut fps);
    assert_eq!(r.text, "Render distance set to 12 chunks.");
    assert_eq!(s.load_radius(), 12);
    assert_eq!(s.unload_radius(), 14);
    let r = execute("/settings fps max +1000", &mut s, &mut fps);
    assert_eq!(r.text, "FPS capped at 1000.");
    assert_eq!(fps.cap, Some(1000));
    let r = execute("/settings fps max 99999999999", &mut s, &mut fps);
    assert_eq!(r.text, "'99999999999' is not true, false, or a number.");
    assert_eq!(fps.cap, Some(1000));
}

#[test]
fn render_distance_change_keeps_at_least_one_column_of_hysteresis() {
    let mut s = ChunkStreamer::new(0, 5, 5);
    let mut fps = FpsCounter::new();
    execute("/settings rd 7", &mut s, &mut fps);
    assert_eq!(s.load_radius(), 7);
    assert_eq!(s.unload_radius(), 8);
}

#[test]
fn whitespace_between_words_is_ignored() {
    let mut s = streamer();
    let mut fps = FpsCounter::new();
    let r = execute("/  settings\t fps   counter   false  ", &mut s, &mut fps);
    assert_eq!(r.text, "FPS counter hidden.");
    assert!(!fps.show);
}

#[test]
fn suggestion_after_a_full_last_word_only_adds_a_space() {
    let s = suggest("/help").unwrap();
    assert_eq!(s.ghost_tail, "");
    assert_eq!(s.tab_insert.as_deref(), Some(" "));
    assert!(suggest("/help ").is_none());
    assert!(suggest("/settings rd").is_some());
    assert_eq!(suggest("/settings rd").unwrap().ghost_tail, " <chunks>");
    assert_eq!(suggest("/settings rd").unwrap().tab_insert.as_deref(), Some(" "));
}

#[test]
fn a_command_with_and_without_its_slash_does_the_same() {
    for command in ["settings rd 4", "settings fps counter false", "settings fps sync true", "foo", "help", ""] {
        let mut s1 = streamer();
        let mut f1 = FpsCounter::new();
        let r1 = execute(command, &mut s1, &mut f1);
        let mut s2 = streamer();
        let mut f2 = FpsCounter::new();
        let r2 = execute(&format!("/{command}"), &mut s2, &mut f2);
        assert_eq!(r1.text, r2.text);
        assert_eq!(r1.kind, r2.kind);
        assert_eq!(r1.set_vsync, r2.set_vsync);
        assert_eq!(s1.load_radius(), s2.load_radius());
        assert_eq!(s1.unload_radius(), s2.unload_radius());
        assert_eq!(f1.show, f2.show);
        assert_eq!(f1.cap, f2.cap);
    }
}

#[test]
fn rejected_and_unrelated_commands_leave_the_frame_counter_alone() {
    for command in ["/settings rd 999", "/settings rd banana", "/foo", "/help", "/settings fps max 5000", "/settings fps max banana", "/settings fps counter banana", "/settings fps sync true"] {
        let mut s = streamer();
        let mut fps = FpsCounter::new();
        fps.advance(1);
        fps.advance(2);
        execute(command, &mut s, &mut fps);
        assert_eq!(fps.cap, None);
        assert!(fps.show);
        assert_eq!(fps.current, 0);
        assert_eq!(fps.frames_in_window(), 2);
    }
}
