use dwatch::{format_number, render_number, Focus, FocusController, SignalEvent, StyleKind, Styles, WriterBox};

fn painted_plain(colour: u8, text: &str) -> String {
    ansi_term::Style {
        foreground: Some(ansi_term::Colour::Fixed(colour)),
        is_bold: true,
        ..ansi_term::Style::default()
    }
    .paint(text)
    .to_string()
}

#[test]
fn test_format_number() {
    // Test without bit formatting
    assert_eq!(format_number(500, false), "500.00");
    assert_eq!(format_number(1500, false), "1.50K");
    assert_eq!(format_number(1_500_000, false), "1.50M");
    assert_eq!(format_number(1_500_000_000, false), "1.50G");

    // Test with bit formatting
    assert_eq!(format_number(500, true), "500.00_bps");
    assert_eq!(format_number(1500, true), "1.50Kbps");
    assert_eq!(format_number(1_500_000, true), "1.50Mbps");
    assert_eq!(format_number(1_500_000_000, true), "1.50Gbps");
}

#[test]
fn unit_thresholds_are_strict() {
    assert_eq!(format_number(999, false), "999.00");
    assert_eq!(format_number(1000, false), "1000.00");
    assert_eq!(format_number(1001, false), "1.00K");
    assert_eq!(format_number(1_000_000, false), "1000.00K");
    assert_eq!(format_number(1_000_000_000, false), "1000.00M");
    assert_eq!(format_number(-1500, false), "-1500.00");
}

#[test]
fn style_registry_lookup_by_name() {
    assert_eq!(WriterBox::index("default"), Some(0));
    assert_eq!(WriterBox::index("number+(events per interval)"), Some(1));
    assert_eq!(WriterBox::index("number+(events per second)"), Some(2));
    assert_eq!(WriterBox::index("events per interval"), Some(3));
    assert_eq!(WriterBox::index("events per second"), Some(4));
    assert_eq!(WriterBox::index("engineering"), Some(5));
    assert_eq!(WriterBox::index("networking"), Some(6));
    assert_eq!(WriterBox::index("no such style"), None);
}

#[test]
fn plain_style_paints_the_value() {
    let s = render_number(StyleKind::Plain, 5, 0, 1000, false);
    assert_eq!(s, painted_plain(4, "5"));
    assert_ne!(s, "5");
}

#[test]
fn delta_style_renders_rate_per_interval() {
    let s = render_number(StyleKind::DeltaOnly, 99, 7, 1000, false);
    let expected = format!("{}/i", painted_plain(1, "7"));
    assert_eq!(s, expected);
}

#[test]
fn networking_style_scales_bit_rate() {
    // 250_000_000 per second over one second is two gigabits per second.
    let s = render_number(StyleKind::Networking, 0, 250_000_000, 1000, false);
    let expected = format!(
        "{}\u{27f6}{}/s",
        painted_plain(2, "0"),
        painted_plain(2, "2.00Gbps")
    );
    assert_eq!(s, expected);
}

#[test]
fn cycle_focus_wraps_over_the_items() {
    let mut c = FocusController::new(0);
    c.set_total_items(3);
    assert_eq!(c.focus, None);
    c.handle_event(SignalEvent::CycleFocus);
    assert_eq!(c.focus, Some(0));
    c.handle_event(SignalEvent::CycleFocus);
    assert_eq!(c.focus, Some(1));
    c.handle_event(SignalEvent::CycleFocus);
    assert_eq!(c.focus, Some(2));
    c.handle_event(SignalEvent::CycleFocus);
    assert_eq!(c.focus, Some(0));
    c.handle_event(SignalEvent::CycleFocus);
    assert_eq!(c.focus, Some(1));
    c.handle_event(SignalEvent::CycleFocus);
    assert_eq!(c.focus, Some(2));
}

#[test]
fn cycle_focus_with_no_items_keeps_a_focus() {
    let mut c = FocusController::new(0);
    c.handle_event(SignalEvent::CycleFocus);
    assert_eq!(c.focus, Some(0));
    c.handle_event(SignalEvent::CycleFocus);
    assert_eq!(c.focus, Some(0));
}

#[test]
fn focus_expires_without_interaction() {
    let mut c = FocusController::new(0);
    c.set_total_items(2);
    c.handle_event(SignalEvent::CycleFocus);
    assert_eq!(c.focus, Some(0));
    for _ in 0..6 {
        let styles = Styles::new(&mut c);
        assert_eq!(styles.focus().index(), Some(0));
    }
    // The lifetime limit is now exceeded: the next pass renders unfocused.
    let styles = Styles::new(&mut c);
    assert_eq!(styles.focus().index(), None);
    assert_eq!(c.focus, None);
}

#[test]
fn interaction_resets_the_focus_lifetime() {
    let mut c = FocusController::new(0);
    c.set_total_items(2);
    c.handle_event(SignalEvent::CycleFocus);
    for _ in 0..5 {
        let _ = Styles::new(&mut c);
    }
    c.handle_event(SignalEvent::CycleFocus);
    for _ in 0..6 {
        let styles = Styles::new(&mut c);
        assert_eq!(styles.focus().index(), Some(1));
    }
}

#[test]
fn cycle_style_moves_global_then_override() {
    let mut c = FocusController::new(0);
    c.set_total_items(2);
    // Unfocused: the global style advances.
    c.handle_event(SignalEvent::CycleStyle);
    assert_eq!(c.global_style, 1);
    // Focused: the item's first override lands on style one.
    c.handle_event(SignalEvent::CycleFocus);
    c.handle_event(SignalEvent::CycleStyle);
    let styles = Styles::new(&mut c);
    assert_eq!(styles.current(0), 1);
    assert_eq!(styles.current(1), 1);
    // A second cycle moves only the focused item's override.
    c.handle_event(SignalEvent::CycleStyle);
    let styles = Styles::new(&mut c);
    assert_eq!(styles.current(0), 2);
    assert_eq!(styles.current(1), 1);
}

#[test]
fn terminate_raises_the_flag_only() {
    let mut c = FocusController::new(2);
    c.handle_event(SignalEvent::Terminate);
    assert!(c.terminating);
    assert_eq!(c.global_style, 2);
    assert_eq!(c.focus, None);
}

#[test]
fn focus_banner_text() {
    assert_eq!(Focus::new(Some(3)).text(), "(focus:3)");
    assert_eq!(Focus::new(None).text(), "");
}

#[test]
fn styles_report_focus_state() {
    let mut c = FocusController::new(0);
    c.set_total_items(3);
    c.handle_event(SignalEvent::CycleFocus);
    let styles = Styles::new(&mut c);
    assert!(styles.is_focus(0));
    assert!(!styles.is_focus(1));
    assert_eq!(styles.focus_or_global(), 0);
}

#[test]
fn banner_names_the_interval_style_and_commands() {
    let cmds: Vec<String> = vec!["df -h".into(), "uptime".into()];
    let head = dwatch::banner_head(2000, "engineering", &cmds);
    assert_eq!(head, "Every 2000 ms, style 'engineering': df -h | uptime");
}
