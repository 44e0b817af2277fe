use dryve::progress::{redraw_start_text, Outcome, Progress, Tone};
use dryve::utils::{answer_is_yes, fmt_duration, sanitize_name, Progress as SingleProgress};

#[test]
fn start_and_complete_frames() {
    let p = Progress::new(3);
    let h = p.handle();
    let f = h.start("a", |_| {});
    assert_eq!(f.up, 0);
    assert!(f.message.is_none());
    assert_eq!(f.active, vec!["a".to_string()]);
    assert_eq!(f.total, 3);
    let f = h.start("b", |_| {});
    assert_eq!(f.up, 1);
    assert_eq!(f.active.len(), 2);
    let f = h.complete("a", 100, |_| {});
    assert_eq!(f.up, 2);
    assert_eq!(f.message, Some((Outcome::Downloaded, "a".to_string())));
    assert_eq!(f.active, vec!["b".to_string()]);
    assert_eq!(f.done, 1);
    let f = h.complete_err("b", |_| {});
    assert_eq!(f.message, Some((Outcome::Failed, "b".to_string())));
    assert!(f.active.is_empty());
    assert_eq!(f.done, 2);
    assert_eq!(p.counts(), (0, 100));
}

#[test]
fn handles_share_the_progress() {
    let p = Progress::new(2);
    let h1 = p.handle();
    let h2 = p.handle();
    h1.start("x", |_| {});
    let f = h2.start("y", |_| {});
    assert_eq!(f.active, vec!["x".to_string(), "y".to_string()]);
}

#[test]
fn single_download_progress() {
    let mut p = SingleProgress::new(None);
    assert_eq!(p.downloaded(), 0);
    assert_eq!(p.bar_width(), 24);
    assert_eq!(p.spinner(), format!("={}", " ".repeat(23)));
    p.update(8192 * 3);
    assert_eq!(p.downloaded(), 8192 * 3);
    assert_eq!(p.spinner(), format!("   ={}", " ".repeat(20)));
    p.update(8192 * 21);
    // Position 24 is the hidden one.
    assert_eq!(p.spinner(), " ".repeat(24));
    assert_eq!(SingleProgress::new(Some(10)).total(), Some(10));
}

#[test]
fn sanitized_names() {
    assert_eq!(sanitize_name("a/b\\c:d*e?f\"g<h>i|j"), "a_b_c_d_e_f_g_h_i_j");
    assert_eq!(sanitize_name("normal name.txt"), "normal name.txt");
    assert_eq!(sanitize_name("tab\there"), "tab_here");
    assert_eq!(sanitize_name("é"), "é");
    assert_eq!(sanitize_name(""), "_");
    assert_eq!(sanitize_name("."), "_");
    assert_eq!(sanitize_name(".."), "__");
    assert_eq!(sanitize_name("..."), "...");
    assert_eq!(sanitize_name(".hidden"), ".hidden");
    assert_eq!(sanitize_name("./"), "._");
}

#[test]
fn start_then_end_restores_active_list() {
    let p = Progress::new(5);
    let h = p.handle();
    h.start("keep", |_| {});
    let before = h.start("tmp", |_| {}).active.len();
    let after = h.complete("tmp", 7, |_| {});
    assert_eq!(before, 2);
    assert_eq!(after.active, vec!["keep".to_string()]);
    assert_eq!(after.done, 1);
}

#[test]
fn durations() {
    assert_eq!(fmt_duration(0), "0s");
    assert_eq!(fmt_duration(59), "59s");
    assert_eq!(fmt_duration(60), "1m 0s");
    assert_eq!(fmt_duration(187), "3m 7s");
    assert_eq!(fmt_duration(3600), "60m 0s");
}

#[test]
fn yes_answers() {
    assert!(answer_is_yes("y\n"));
    assert!(answer_is_yes("  YES \r\n"));
    assert!(answer_is_yes("Yes"));
    assert!(!answer_is_yes("\n"));
    assert!(!answer_is_yes("no\n"));
    assert!(!answer_is_yes("ye\n"));
    assert!(!answer_is_yes("y es"));
    assert!(!answer_is_yes("yess"));
    // A no-break space counts as whitespace too.
    assert!(answer_is_yes("\u{a0}y\u{a0}"));
    assert!(answer_is_yes("\u{3000}yes\u{2028}"));
    // A zero-width space is not whitespace.
    assert!(!answer_is_yes("\u{200b}y"));
}


#[test]
fn frames_are_drawn_while_recorded() {
    let p = Progress::new(1);
    let h = p.handle();
    let drawn: std::cell::RefCell<Vec<(usize, Vec<String>, usize)>> = std::cell::RefCell::new(Vec::new());
    let keep = |f: &dryve::progress::ProgressFrame| drawn.borrow_mut().push((f.up, f.active.clone(), f.done));
    let f1 = h.start("a", keep);
    let f2 = h.complete("a", 5, keep);
    let seen = drawn.borrow();
    assert_eq!(seen.len(), 2);
    assert_eq!(seen[0], (f1.up, f1.active.clone(), f1.done));
    assert_eq!(seen[1], (f2.up, f2.active.clone(), f2.done));
    assert_eq!(seen[1], (1, Vec::<String>::new(), 1));
}

#[test]
fn redraw_pieces() {
    let p = Progress::new(2);
    let h = p.handle();
    let f = h.start("a", |_| {});
    assert_eq!(f.redraw(), vec![
        (Tone::Plain, "\r\x1B[J".to_string()),
        (Tone::Plain, "  ".to_string()),
        (Tone::Grey, "downloading".to_string()),
        (Tone::Plain, " ".to_string()),
        (Tone::White, "a".to_string()),
        (Tone::Plain, "\n".to_string()),
    ]);
    h.start("b", |_| {});
    let f = h.complete_err("a", |_| {});
    let pieces = f.redraw();
    assert_eq!(pieces[0], (Tone::Plain, "\r\x1B[2A\x1B[J".to_string()));
    assert_eq!(pieces[1..6].to_vec(), vec![
        (Tone::Plain, "  ".to_string()),
        (Tone::Red, "error      ".to_string()),
        (Tone::Plain, " ".to_string()),
        (Tone::White, "a".to_string()),
        (Tone::Plain, "\n".to_string()),
    ]);
    assert_eq!(pieces.len(), 11);
    assert_eq!(pieces[9], (Tone::White, "b".to_string()));
    assert_eq!(redraw_start_text(12), "\r\x1B[12A\x1B[J");
}
