use dwatch::{
    interpret_command_outcome, next_deadline, normalize_cmd, CommandError, CommandOutcome, Dwatch,
    FocusController, SignalEvent, Styles,
};

fn painted_plain(colour: u8, text: &str) -> String {
    ansi_term::Style {
        foreground: Some(ansi_term::Colour::Fixed(colour)),
        is_bold: true,
        ..ansi_term::Style::default()
    }
    .paint(text)
    .to_string()
}

/// Takes the pass snapshot of a controller; built with the global style at
/// the delta-per-interval strategy, its output shows the tracked deltas.
fn delta_styles(c: &mut FocusController) -> Styles {
    Styles::new(c)
}

#[test]
fn same_line_shape_yields_deltas() {
    let mut d = Dwatch::new(1000);
    let mut c = FocusController::new(3);
    let styles = delta_styles(&mut c);
    let (out1, n1) = d.writeln_line("cpu 10", 0, 0, &styles).unwrap();
    assert_eq!(n1, 1);
    assert_eq!(out1, format!("cpu {}/i", painted_plain(1, "0")));

    let styles = delta_styles(&mut c);
    let (out2, n2) = d.writeln_line("cpu 15", 0, 0, &styles).unwrap();
    assert_eq!(n2, 1);
    assert_eq!(out2, format!("cpu {}/i", painted_plain(1, "5")));
}

#[test]
fn changed_token_count_resets_deltas() {
    let mut d = Dwatch::new(1000);
    let mut c = FocusController::new(3);
    let styles = delta_styles(&mut c);
    let _ = d.writeln_line("cpu 10", 0, 0, &styles).unwrap();

    let styles = delta_styles(&mut c);
    let (out, n) = d.writeln_line("cpu 1 2", 0, 0, &styles).unwrap();
    assert_eq!(n, 2);
    let zero = painted_plain(1, "0");
    assert_eq!(out, format!("cpu {}/i {}/i", zero, zero));
}

#[test]
fn same_index_different_shape_tracks_separately() {
    let mut d = Dwatch::new(1000);
    let mut c = FocusController::new(3);
    let styles = delta_styles(&mut c);
    let _ = d.writeln_line("rx 10", 0, 0, &styles).unwrap();
    // A line with different literal chunks at the same index starts fresh.
    let styles = delta_styles(&mut c);
    let (out, _) = d.writeln_line("tx 90", 0, 0, &styles).unwrap();
    assert_eq!(out, format!("tx {}/i", painted_plain(1, "0")));
    // The original line's statistics were not disturbed.
    let styles = delta_styles(&mut c);
    let (out, _) = d.writeln_line("rx 13", 0, 0, &styles).unwrap();
    assert_eq!(out, format!("rx {}/i", painted_plain(1, "3")));
}

#[test]
fn token_parse_failure_scopes_to_the_line() {
    let mut d = Dwatch::new(1000);
    let mut c = FocusController::new(0);
    let styles = delta_styles(&mut c);
    let err = d.writeln_line("big 99999999999999999999", 0, 0, &styles);
    assert!(err.is_err());
    // Other lines keep working after the failure.
    let styles = delta_styles(&mut c);
    let (_, n) = d.writeln_line("ok 5", 1, 0, &styles).unwrap();
    assert_eq!(n, 1);
}

#[test]
fn command_success_yields_stdout() {
    let r = interpret_command_outcome(CommandOutcome::Finished {
        success: true,
        exit_code: Some(0),
        stdout: "lines\n".into(),
        stderr: "noise".into(),
    });
    assert_eq!(r.unwrap(), "lines\n");
}

#[test]
fn command_failure_carries_trimmed_stderr() {
    let r = interpret_command_outcome(CommandOutcome::Finished {
        success: false,
        exit_code: Some(2),
        stdout: String::new(),
        stderr: " boom \n".into(),
    });
    match r.unwrap_err() {
        CommandError::CommandFailed { exit_code, stderr } => {
            assert_eq!(exit_code, Some(2));
            assert_eq!(stderr, "boom");
        },
        _ => panic!("expected a command failure"),
    }
}

#[test]
fn command_timeout_yields_timed_out() {
    let r = interpret_command_outcome(CommandOutcome::TimedOut);
    assert!(matches!(r.unwrap_err(), CommandError::CommandTimedOut));
}

#[test]
fn error_messages_name_the_command() {
    let e = CommandError::CommandTimedOut;
    assert_eq!(
        e.message("sleep 9", 2),
        "Command 'sleep 9' timed out after 2 seconds and was killed"
    );
    let e = CommandError::CommandFailed { exit_code: Some(3), stderr: String::new() };
    assert_eq!(
        e.message("false", 2),
        "Command 'false' failed with exit code: Some(3)"
    );
    let e = CommandError::CommandFailed { exit_code: Some(3), stderr: "oops".into() };
    assert_eq!(e.message("false", 2), "Command 'false' failed with stderr: oops");
    let e = CommandError::CommandSpawnError { message: "no shell".into() };
    assert_eq!(
        e.message("x", 2),
        "Failed to spawn command 'x': no shell"
    );
}

#[test]
fn deadline_advances_on_the_previous_deadline() {
    // A pass slower than the interval does not push the schedule to "now".
    assert_eq!(next_deadline(100, 50, true), 150);
    assert_eq!(next_deadline(100, 50, false), 100);
}

#[test]
fn commands_are_whitespace_normalized() {
    assert_eq!(normalize_cmd("  ls    -l  "), "ls -l");
    assert_eq!(normalize_cmd("df\t-h"), "df -h");
    assert_eq!(normalize_cmd("   "), "");
}

#[test]
fn focused_item_renders_reversed() {
    let mut d = Dwatch::new(1000);
    let mut c = FocusController::new(0);
    c.set_total_items(1);
    c.handle_event(SignalEvent::CycleFocus);
    let styles = Styles::new(&mut c);
    let (out, _) = d.writeln_line("5", 0, 0, &styles).unwrap();
    let focused = ansi_term::Style {
        foreground: Some(ansi_term::Colour::Fixed(4)),
        is_bold: true,
        is_reverse: true,
        ..ansi_term::Style::default()
    }
    .paint("5")
    .to_string();
    assert_eq!(out, focused);
}

#[test]
fn a_pass_renders_lines_in_order_and_counts_tokens() {
    let mut d = Dwatch::new(1000);
    let mut c = FocusController::new(3);
    let styles = delta_styles(&mut c);
    let lines: Vec<String> = vec!["cpu 10 20".into(), "mem 7".into()];
    let (rendered, total) = d.render_lines(&lines, &styles);
    let zero = painted_plain(1, "0");
    assert_eq!(total, 3);
    assert_eq!(rendered.len(), 2);
    assert_eq!(rendered[0], format!("cpu {}/i {}/i", zero, zero));
    assert_eq!(rendered[1], format!("mem {}/i", zero));

    // The next pass tracks deltas per line, under the same indices.
    let styles = delta_styles(&mut c);
    let lines: Vec<String> = vec!["cpu 12 23".into(), "mem 9".into()];
    let (rendered, total) = d.render_lines(&lines, &styles);
    assert_eq!(total, 3);
    assert_eq!(
        rendered[0],
        format!("cpu {}/i {}/i", painted_plain(1, "2"), painted_plain(1, "3"))
    );
    assert_eq!(rendered[1], format!("mem {}/i", painted_plain(1, "2")));
}

#[test]
fn a_failing_line_is_replaced_by_an_error_text() {
    let mut d = Dwatch::new(1000);
    let mut c = FocusController::new(3);
    let styles = delta_styles(&mut c);
    let lines: Vec<String> = vec!["big 99999999999999999999".into(), "ok 5".into()];
    let (rendered, total) = d.render_lines(&lines, &styles);
    assert_eq!(total, 1);
    assert_eq!(rendered[0], "failed to parse number in range 4..24");
    assert_eq!(rendered[1], format!("ok {}/i", painted_plain(1, "0")));
}
