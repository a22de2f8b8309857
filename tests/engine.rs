use clocktui::animated::{split_format, classify, AnimatedTime, TokenBlock};
use clocktui::app::{block_columns, handle_key_events, progress_percent, App};
use clocktui::scheduler::{
    logic_tick_due, poll_timeout, render_step, ActivityFlag, Event, Key, KeyInput, RenderAction,
};
use clocktui::text::{chars_of, copy_range, same_text};
use clocktui::wall::{render, WallTime};

fn chars(s: &str) -> Vec<char> {
    s.chars().collect()
}

fn text(v: &[char]) -> String {
    v.iter().collect()
}

fn at(hour: u32, minute: u32, second: u32) -> WallTime {
    WallTime { year: 2024, month: 3, day: 5, hour, minute, second, nano: 0, offset: 0 }
}

fn shape(a: &AnimatedTime) -> Vec<(String, Vec<(bool, usize)>)> {
    a.format_tokens
        .iter()
        .map(|t| (text(&t.format_string), t.blocks.iter().map(|b| (b.is_constant, b.size)).collect()))
        .collect()
}

fn currents(a: &AnimatedTime) -> Vec<String> {
    a.format_tokens.iter().flat_map(|t| t.blocks.iter().map(|b| text(&b.curr_token))).collect()
}

fn blank(timing: u128) -> AnimatedTime {
    AnimatedTime { format_tokens: Vec::new(), timing }
}

#[test]
fn split_format_separates_directives_and_literals() {
    let frags: Vec<String> = split_format(&chars("%H:%M:%S")).iter().map(|f| text(f)).collect();
    assert_eq!(frags, vec!["%H", ":", "%M", ":", "%S"]);
}

#[test]
fn split_format_keeps_padding_modifiers() {
    let frags: Vec<String> = split_format(&chars("%-d/%_m %0e")).iter().map(|f| text(f)).collect();
    assert_eq!(frags, vec!["%-d", "/", "%_m", " ", "%0e"]);
}

#[test]
fn split_format_drops_unfinished_directive() {
    let frags: Vec<String> = split_format(&chars("ab%-")).iter().map(|f| text(f)).collect();
    assert_eq!(frags, vec!["a", "b"]);
    assert!(split_format(&chars("")).is_empty());
}

#[test]
fn classify_splits_equal_width_renderings_per_character() {
    let blocks = classify(&chars("%p"), 7);
    let shapes: Vec<(bool, usize)> = blocks.iter().map(|b| (b.is_constant, b.size)).collect();
    assert_eq!(shapes, vec![(false, 1), (true, 1)]);
    assert!(blocks.iter().all(|b| b.transition_timing == 7 && b.transition_progress == 0));
}

#[test]
fn classify_collapses_width_changing_token() {
    let blocks = classify(&chars("%-d"), 7);
    let shapes: Vec<(bool, usize)> = blocks.iter().map(|b| (b.is_constant, b.size)).collect();
    assert_eq!(shapes, vec![(false, 2)]);
}

#[test]
fn classify_literal_is_constant() {
    let blocks = classify(&chars(":"), 7);
    let shapes: Vec<(bool, usize)> = blocks.iter().map(|b| (b.is_constant, b.size)).collect();
    assert_eq!(shapes, vec![(true, 1)]);
}

#[test]
fn classify_unrenderable_directive_is_empty() {
    assert!(classify(&chars("%Q"), 7).is_empty());
}

#[test]
fn render_formats_fields() {
    assert_eq!(text(&render(&chars("%Y-%m-%d %H:%M:%S"), at(9, 5, 7))), "2024-03-05 09:05:07");
}

#[test]
fn render_uses_offset() {
    let t = WallTime { offset: 3600, ..at(9, 5, 7) };
    assert_eq!(text(&render(&chars("%z"), t)), "+0100");
}

#[test]
fn render_rejects_invalid_instant_and_directive() {
    let bad = WallTime { month: 13, ..at(9, 5, 7) };
    assert!(render(&chars("%H"), bad).is_empty());
    assert!(render(&chars("%Q"), at(9, 5, 7)).is_empty());
}

#[test]
fn set_format_at_configures_blocks_at_rest() {
    let a = blank(500).set_format_at("%H:%M:%S", at(10, 0, 0));
    assert_eq!(
        shape(&a),
        vec![
            ("%H".to_string(), vec![(false, 1), (false, 1)]),
            (":".to_string(), vec![(true, 1)]),
            ("%M".to_string(), vec![(false, 1), (false, 1)]),
            (":".to_string(), vec![(true, 1)]),
            ("%S".to_string(), vec![(false, 1), (false, 1)]),
        ]
    );
    assert_eq!(currents(&a), vec!["1", "0", ":", "0", "0", ":", "0", "0"]);
    for t in &a.format_tokens {
        for b in &t.blocks {
            assert_eq!(b.transition_progress, 0);
            assert_eq!(b.transition_timing, 500);
            assert_eq!(b.curr_token, b.new_token);
        }
    }
}

#[test]
fn partition_is_deterministic() {
    let first = blank(250).set_format_at("%a %d %B %H:%M", at(1, 2, 3));
    let second = blank(250).set_format_at("%a %d %B %H:%M", at(23, 59, 59));
    assert_eq!(shape(&first), shape(&second));
}

#[test]
fn display_round_trips_rendering() {
    let fmt = "%Y-%m-%d %H:%M:%S";
    let a = blank(250).set_format_at(fmt, at(13, 45, 9));
    assert_eq!(currents(&a).concat(), text(&render(&chars(fmt), at(13, 45, 9))));
}

#[test]
fn new_uses_time_of_day_and_default_timing() {
    let a = AnimatedTime::new();
    assert_eq!(a.timing(), 250);
    let formats: Vec<String> = a.format_tokens.iter().map(|t| text(&t.format_string)).collect();
    assert_eq!(formats, vec!["%X"]);
    assert_eq!(a.format_tokens[0].blocks.len(), 8);
}

#[test]
fn set_timing_updates_every_block() {
    let a = blank(250).set_format_at("%H:%M", at(10, 0, 0)).set_timing(900);
    assert_eq!(a.timing(), 900);
    assert!(a.format_tokens.iter().all(|t| t.blocks.iter().all(|b| b.transition_timing == 900)));
}

#[test]
fn tick_logic_at_resamples_targets_only() {
    let mut a = blank(500).set_format_at("%H:%M:%S", at(10, 0, 0));
    a.tick_logic_at(at(10, 0, 1));
    let b = &a.format_tokens[4].blocks[1];
    assert_eq!(text(&b.new_token), "1");
    assert_eq!(text(&b.curr_token), "0");
    assert_eq!(a.format_tokens[4].blocks[0].new_token, chars("0"));
}

#[test]
fn tick_logic_at_twice_is_idempotent() {
    let mut a = blank(500).set_format_at("%H:%M:%S", at(10, 0, 0));
    a.tick_logic_at(at(10, 0, 1));
    let once: Vec<Vec<char>> =
        a.format_tokens.iter().flat_map(|t| t.blocks.iter().map(|b| b.new_token.clone())).collect();
    a.tick_logic_at(at(10, 0, 1));
    let twice: Vec<Vec<char>> =
        a.format_tokens.iter().flat_map(|t| t.blocks.iter().map(|b| b.new_token.clone())).collect();
    assert_eq!(once, twice);
}

#[test]
fn tick_render_commits_one_tick_after_threshold() {
    let mut a = blank(30).set_format_at("%S", at(10, 0, 0));
    a.tick_logic_at(at(10, 0, 1));
    assert!(a.tick_render(10));
    assert!(a.tick_render(10));
    assert!(a.tick_render(10));
    assert_eq!(a.format_tokens[0].blocks[1].transition_progress, 30);
    assert!(a.tick_render(10));
    let b = &a.format_tokens[0].blocks[1];
    assert_eq!(b.transition_progress, 40);
    assert_eq!(text(&b.curr_token), "0");
    assert!(!a.tick_render(10));
    let b = &a.format_tokens[0].blocks[1];
    assert_eq!(b.transition_progress, 0);
    assert_eq!(text(&b.curr_token), "1");
    assert!(!a.tick_render(10));
}

#[test]
fn zero_threshold_commits_on_next_tick() {
    let mut a = blank(0).set_format_at("%S", at(10, 0, 0));
    a.tick_logic_at(at(10, 0, 1));
    assert!(a.tick_render(5));
    assert!(!a.tick_render(5));
    assert_eq!(text(&a.format_tokens[0].blocks[1].curr_token), "1");
}

#[test]
fn settled_blocks_carry_no_progress() {
    let mut a = blank(100).set_format_at("%H:%M:%S", at(10, 0, 0));
    assert!(!a.has_pending());
    assert!(!a.tick_render(10));
    for t in &a.format_tokens {
        for b in &t.blocks {
            assert_eq!(b.transition_progress, 0);
        }
    }
    a.tick_logic_at(at(10, 0, 0));
    assert!(!a.has_pending());
}

#[test]
fn constant_block_never_transitions() {
    let mut block = TokenBlock {
        is_constant: true,
        transition_progress: 0,
        transition_timing: 10,
        size: 1,
        curr_token: chars(":"),
        new_token: chars(";"),
    };
    let (next, moving) = clocktui::animated::advance_block_exec(&block, 50);
    assert!(!moving);
    assert_eq!(next.curr_token, chars(":"));
    assert_eq!(next.transition_progress, 0);
    block.is_constant = false;
    let (next, moving) = clocktui::animated::advance_block_exec(&block, 50);
    assert!(moving);
    assert_eq!(next.transition_progress, 50);
}

#[test]
fn clock_scenario_seconds_roll_over() {
    let mut app = App::with_format_at("%H:%M:%S", 500, at(10, 0, 0));
    let before = currents(app.animated_time());
    assert_eq!(before.concat(), "10:00:00");
    // Logic ticks every 200 ms; the clock still reads 10:00:00 until 1000 ms.
    for _ in 0..4 {
        assert!(logic_tick_due(200, 200));
        assert!(!app.tick_logic_at(at(10, 0, 0)));
    }
    assert!(app.tick_logic_at(at(10, 0, 1)));
    let b = &app.animated_time().format_tokens[4].blocks[1];
    assert_eq!(text(&b.new_token), "1");
    assert_eq!(text(&b.curr_token), "0");
    // Render ticks every 10 ms: 51 ticks carry progress past 500 ms.
    for n in 1..=51u128 {
        assert!(app.tick_render(10));
        assert_eq!(app.animated_time().format_tokens[4].blocks[1].transition_progress, 10 * n);
        assert_eq!(currents(app.animated_time()), before);
    }
    assert!(!app.tick_render(10));
    let after = currents(app.animated_time());
    assert_eq!(after.concat(), "10:00:01");
    assert_eq!(app.animated_time().format_tokens[4].blocks[1].transition_progress, 0);
    assert!(!app.tick_render(10));
}

#[test]
fn idle_render_worker_emits_nothing() {
    for since_last in [0u128, 9, 10, 5000, u128::MAX] {
        assert_eq!(render_step(false, 10, since_last), RenderAction::Suspend);
    }
}

#[test]
fn active_render_worker_paces_ticks() {
    assert_eq!(render_step(true, 10, 4), RenderAction::Sleep(6));
    assert_eq!(render_step(true, 10, 10), RenderAction::Emit(10));
    assert_eq!(render_step(true, 10, 13), RenderAction::Emit(13));
}

#[test]
fn poll_timeout_is_rest_of_interval() {
    assert_eq!(poll_timeout(200, 0), 200);
    assert_eq!(poll_timeout(200, 150), 50);
    assert_eq!(poll_timeout(200, 200), 0);
    assert_eq!(poll_timeout(200, 250), 200);
    assert!(!logic_tick_due(200, 199));
    assert!(logic_tick_due(200, 201));
}

#[test]
fn activity_flag_wakes_once_per_episode() {
    let mut flag = ActivityFlag::new();
    assert!(!flag.animating);
    assert!(flag.set(true));
    assert!(!flag.set(true));
    assert!(!flag.set(true));
    assert!(flag.animating);
    assert!(!flag.set(false));
    assert!(!flag.set(false));
    assert!(flag.set(true));
}

#[test]
fn quit_keys_stop_the_app() {
    let key = |code, control| KeyInput { code, control };
    for (k, quits) in [
        (key(Key::Esc, false), true),
        (key(Key::Char('q'), false), true),
        (key(Key::Char('Q'), false), true),
        (key(Key::Char('c'), true), true),
        (key(Key::Char('D'), true), true),
        (key(Key::Char('c'), false), false),
        (key(Key::Char('x'), true), false),
        (key(Key::Other, false), false),
    ] {
        let mut app = App::with_format_at("%S", 100, at(1, 2, 3));
        handle_key_events(k, &mut app);
        assert_eq!(app.running, !quits);
    }
}

#[test]
fn handle_event_dispatches() {
    let mut app = App::with_format_at("%S", 100, at(1, 2, 3));
    assert_eq!(app.handle_event(Event::RenderTick(10)), Some(false));
    assert_eq!(app.handle_event(Event::Resize(80, 24)), None);
    assert_eq!(app.handle_event(Event::Mouse(3, 4)), None);
    assert!(app.running);
    assert_eq!(app.handle_event(Event::Key(KeyInput { code: Key::Esc, control: false })), None);
    assert!(!app.running);
}

#[test]
fn wipe_direction_rotates_on_commit() {
    let mut app = App::with_format_at("%S", 0, at(1, 2, 3));
    assert!(!app.wipe_horizontal());
    assert!(!app.wipe_reversed());
    assert!(app.tick_logic_at(at(1, 2, 4)));
    assert!(app.tick_render(1));
    assert!(!app.wipe_horizontal());
    assert!(!app.tick_render(1));
    assert!(app.wipe_horizontal());
    assert!(!app.wipe_reversed());
}

#[test]
fn app_new_sets_timing() {
    let app = App::new(750);
    assert_eq!(app.timing(), 750);
    assert!(app.running);
    assert_eq!(App::default().timing(), 250);
}

#[test]
fn progress_percent_is_clamped_ratio() {
    assert_eq!(progress_percent(0, 500), 0);
    assert_eq!(progress_percent(250, 500), 50);
    assert_eq!(progress_percent(1, 3), 33);
    assert_eq!(progress_percent(500, 500), 100);
    assert_eq!(progress_percent(510, 500), 100);
    assert_eq!(progress_percent(5, 0), 100);
    assert_eq!(progress_percent(0, 0), 0);
    assert_eq!(progress_percent(u128::MAX - 1, u128::MAX), 99);
}

#[test]
fn block_columns_by_kind() {
    let b = TokenBlock {
        is_constant: false,
        transition_progress: 0,
        transition_timing: 1,
        size: 2,
        curr_token: Vec::new(),
        new_token: Vec::new(),
    };
    assert_eq!(block_columns(&b), 30);
    let c = TokenBlock { is_constant: true, ..b };
    assert_eq!(block_columns(&c), 16);
}

#[test]
fn text_helpers() {
    assert_eq!(chars_of("héllo"), chars("héllo"));
    assert_eq!(copy_range(&chars("abcdef"), 1, 4), chars("bcd"));
    assert!(same_text(&chars("ab"), &chars("ab")));
    assert!(!same_text(&chars("ab"), &chars("abc")));
    assert!(!same_text(&chars("ab"), &chars("ax")));
}

#[test]
fn targets_round_trip_after_logic_tick() {
    let fmt = "%d %b %-H:%M:%S %p";
    let mut a = blank(250).set_format_at(fmt, at(13, 45, 9));
    let later = at(14, 0, 59);
    a.tick_logic_at(later);
    let targets: String = a
        .format_tokens
        .iter()
        .flat_map(|t| t.blocks.iter().map(|b| text(&b.new_token)))
        .collect();
    assert_eq!(targets, text(&render(&chars(fmt), later)));
}

#[test]
fn clock_reading_configures_display() {
    let mut app = App::default();
    assert!(app.running);
    let _ = app.tick_logic(200);
    let a = app.animated_time();
    assert_eq!(a.format_tokens.len(), 1);
    assert_eq!(a.format_tokens[0].blocks.len(), 8);
}
