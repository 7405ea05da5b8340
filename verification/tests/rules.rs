use logix::file_utils::{chunk_before, line_starts_before, LogLine};
use logix::indexing::{plan_index, progress_percent, IndexPlan, LogIndexer};
use logix::query::Query;
use logix::text::trim_end;
use logix::path_utils::{
    archive_kind, extracted_path, is_candidate_name, is_log_entry, strip_suffix, Archive,
};
use logix::print_utils::{find_highlights, highlight_words, is_same_letter, render_line};
use logix::window::Window;

fn window(head: usize, tail: usize, results: &[u64]) -> Vec<u64> {
    let mut window = Window::new(head, tail);
    let mut shown = Vec::new();
    for result in results {
        let step = window.offer(*result);
        if step.show {
            shown.push(*result);
        }
        if step.done {
            break;
        }
    }
    shown.extend(window.finish());
    shown
}

#[test]
fn window_without_limits_shows_everything() {
    assert_eq!(window(0, 0, &[1, 2, 3]), vec![1, 2, 3]);
    assert_eq!(window(0, 0, &[]), Vec::<u64>::new());
}

#[test]
fn window_with_head_shows_the_first() {
    assert_eq!(window(2, 0, &[1, 2, 3, 4]), vec![1, 2]);
    assert_eq!(window(5, 0, &[1, 2, 3]), vec![1, 2, 3]);
}

#[test]
fn window_with_tail_shows_the_last() {
    assert_eq!(window(0, 2, &[1, 2, 3, 4]), vec![3, 4]);
    assert_eq!(window(0, 5, &[1, 2, 3]), vec![1, 2, 3]);
}

#[test]
fn window_with_head_and_tail_shows_both_ends() {
    assert_eq!(window(1, 2, &[1, 2, 3, 4, 5]), vec![1, 4, 5]);
    assert_eq!(window(2, 2, &[1, 2, 3]), vec![1, 2, 3]);
    assert_eq!(window(3, 3, &[1, 2]), vec![1, 2]);
}

#[test]
fn window_with_head_stops_the_search() {
    let mut window = Window::new(2, 0);
    let first = window.offer(10);
    assert!(first.show && !first.done);
    let second = window.offer(20);
    assert!(second.show && second.done);
    let third = window.offer(30);
    assert!(!third.show && third.done);
    assert_eq!(window.finish(), Vec::<u64>::new());
}

#[test]
fn window_with_tail_shows_at_the_end() {
    let mut window = Window::new(0, 1);
    let step = window.offer(10);
    assert!(!step.show && !step.done);
    let step = window.offer(20);
    assert!(!step.show && !step.done);
    assert_eq!(window.finish(), vec![20]);
}

#[test]
fn index_is_reused_when_it_is_current() {
    let header = [0u8, 0, 0, 0, 0, 0, 0, 0, 0, 10];
    assert_eq!(plan_index(Some(&header), false), IndexPlan::Reuse);
    assert_eq!(plan_index(Some(&header), true), IndexPlan::Rebuild);
    assert_eq!(plan_index(None, false), IndexPlan::Rebuild);
    assert_eq!(plan_index(None, true), IndexPlan::Rebuild);
}

#[test]
fn index_of_another_version_is_rebuilt() {
    let header = [0u8, 1, 0, 0, 0, 0, 0, 0, 0, 10];
    assert_eq!(plan_index(Some(&header), false), IndexPlan::Rebuild);
    assert_eq!(plan_index(Some(&header[..9]), false), IndexPlan::Rebuild);
    assert_eq!(plan_index(Some(&[]), false), IndexPlan::Rebuild);
}

#[test]
fn progress_in_per_cent() {
    assert_eq!(progress_percent(0, 200), 0);
    assert_eq!(progress_percent(50, 200), 25);
    assert_eq!(progress_percent(199, 200), 99);
    assert_eq!(progress_percent(200, 200), 100);
    assert_eq!(progress_percent(0, 0), 100);
    assert_eq!(progress_percent(u64::MAX, u64::MAX), 100);
}

#[test]
fn indexer_counts_the_bytes_of_the_lines() {
    let mut indexer = LogIndexer::new();
    assert_eq!(indexer.line_offset(), 0);
    assert!(indexer.has_room("2024 ERROR disk full\n"));
    indexer.push_line("2024 ERROR disk full\n");
    assert_eq!(indexer.line_offset(), 21);
    indexer.push_line("wörld\n");
    assert_eq!(indexer.line_offset(), 28);
}

#[test]
fn suffix_is_stripped_from_the_end_only() {
    assert_eq!(strip_suffix("logs.tar.gz", ".tar.gz"), Some("logs".to_string()));
    assert_eq!(strip_suffix("logs.tar.gz.old", ".tar.gz"), None);
    assert_eq!(strip_suffix(".tar.gz", ".tar.gz"), Some(String::new()));
    assert_eq!(strip_suffix("gz", ".tar.gz"), None);
    assert_eq!(strip_suffix("app.log", ""), Some("app.log".to_string()));
}

#[test]
fn archives_are_told_by_their_ending() {
    assert_eq!(archive_kind("a/logs.tar.gz"), Some(("a/logs".to_string(), Archive::Gz)));
    assert_eq!(archive_kind("a/logs.tar.xz"), Some(("a/logs".to_string(), Archive::Xz)));
    assert_eq!(archive_kind("a/app.log"), None);
    assert_eq!(archive_kind("a/logs.tar"), None);
}

#[test]
fn archive_entries_with_log_in_their_name_are_logs() {
    assert!(is_log_entry("app.log"));
    assert!(is_log_entry("app.log.1"));
    assert!(!is_log_entry("app.txt"));
    assert!(!is_log_entry("log"));
}

#[test]
fn extracted_logs_are_named_after_the_archive() {
    assert_eq!(extracted_path("a/logs", "app.log"), "a/logs-app.log");
}

#[test]
fn candidate_files_are_picked_by_name() {
    let patterns: Vec<String> =
        [".tar.gz", ".tar.xz", ".log"].iter().map(|p| p.to_string()).collect();
    assert!(is_candidate_name("app.log", &patterns));
    assert!(is_candidate_name("App.LOG", &patterns));
    assert!(is_candidate_name("app.log.1", &patterns));
    assert!(is_candidate_name("old.TAR.gz", &patterns));
    assert!(!is_candidate_name("app.log.ix", &patterns));
    assert!(!is_candidate_name("app.log.IX", &patterns));
    assert!(!is_candidate_name("notes.txt", &patterns));
    assert!(!is_candidate_name("app.log", &Vec::new()));
}

fn chars(text: &str) -> Vec<char> {
    text.chars().collect()
}

#[test]
fn letters_are_compared_without_case() {
    assert!(is_same_letter('a', 'A'));
    assert!(is_same_letter('é', 'É'));
    assert!(is_same_letter('1', '1'));
    assert!(!is_same_letter('a', 'b'));
    assert!(!is_same_letter('1', '2'));
}

#[test]
fn highlights_are_found_from_left_to_right() {
    let words = vec![chars("ERROR"), chars("DISK")];
    assert_eq!(find_highlights(&chars("2024 error Disk full"), &words), vec![(5, 10), (11, 15)]);
    assert_eq!(find_highlights(&chars("nothing here"), &words), Vec::<(usize, usize)>::new());
    assert_eq!(find_highlights(&chars("errorerror"), &words), vec![(0, 5), (5, 10)]);
}

#[test]
fn first_word_of_the_list_wins() {
    let words = vec![chars("ER"), chars("ERROR")];
    assert_eq!(find_highlights(&chars("error"), &words), vec![(0, 2)]);
    let words = vec![chars(""), chars("OR")];
    assert_eq!(find_highlights(&chars("error"), &words), vec![(3, 5)]);
}

#[test]
fn line_without_words_is_shown_as_it_is() {
    let words = vec!["ERROR".to_string()];
    assert_eq!(highlight_words("all is well", &words), "all is well");
    assert_eq!(highlight_words("", &words), "");
}

#[test]
fn words_are_set_off_in_red() {
    let words = vec!["ERROR".to_string()];
    let shown = highlight_words("an error here", &words);
    assert!(shown.starts_with("an \x1b[31merror\x1b["));
    assert!(shown.ends_with(" here"));
}

#[test]
fn separator_comes_between_lines_with_context() {
    let words = vec!["ERROR".to_string()];
    let mut show_separator = false;
    let plain = LogLine { line: "error".to_string(), before: vec![], after: vec![] };
    assert_eq!(render_line(&plain, &words, &mut show_separator).len(), 1);
    assert!(!show_separator);
    let with_context = LogLine {
        line: "error".to_string(),
        before: vec!["a".to_string(), "b".to_string()],
        after: vec!["c".to_string()],
    };
    let first = render_line(&with_context, &words, &mut show_separator);
    assert_eq!(first.len(), 4);
    assert!(first[0].starts_with("\x1b[97ma"));
    assert!(first[3].starts_with("\x1b[97mc"));
    assert!(show_separator);
    let second = render_line(&with_context, &words, &mut show_separator);
    assert_eq!(second.len(), 5);
    assert_eq!(second[0], "--");
    assert!(second[3].contains("error"));
    assert!(show_separator);
    assert_eq!(render_line(&plain, &words, &mut show_separator).len(), 1);
}

#[test]
fn chunks_are_read_backwards() {
    assert_eq!(chunk_before(0), (0, 0));
    assert_eq!(chunk_before(100), (0, 100));
    assert_eq!(chunk_before(1024), (0, 1024));
    assert_eq!(chunk_before(5000), (3976, 1024));
}

#[test]
fn line_starts_are_found_nearest_first() {
    let chunk = b"ab\ncd\nef\ngh";
    assert_eq!(line_starts_before(chunk, 100, 109, 10), vec![106, 103]);
    assert_eq!(line_starts_before(chunk, 100, 110, 10), vec![109, 106, 103]);
    assert_eq!(line_starts_before(chunk, 100, 110, 2), vec![109, 106]);
    assert_eq!(line_starts_before(chunk, 100, 103, 10), Vec::<u64>::new());
    assert_eq!(line_starts_before(chunk, 100, 110, 0), Vec::<u64>::new());
    assert_eq!(line_starts_before(b"", 100, 110, 3), Vec::<u64>::new());
}

#[test]
fn log_starts_with_a_line() {
    let chunk = b"ab\ncd\n";
    assert_eq!(line_starts_before(chunk, 0, 6, 10), vec![3, 0]);
    assert_eq!(line_starts_before(chunk, 0, 3, 10), vec![0]);
    assert_eq!(line_starts_before(chunk, 0, 6, 1), vec![3]);
    assert_eq!(line_starts_before(chunk, 0, 0, 10), Vec::<u64>::new());
    assert_eq!(line_starts_before(b"", 0, 10, 3), vec![0]);
}

#[test]
fn log_line_comes_without_line_ends() {
    let before = vec!["first \n".to_string(), "second\r\n".to_string()];
    let after = vec!["last\n".to_string()];
    let line = LogLine::read("  the line\t \n", &before, &after);
    assert_eq!(line.line, "  the line");
    assert_eq!(line.before, vec!["first", "second"]);
    assert_eq!(line.after, vec!["last"]);
}

#[test]
fn log_line_is_shown_when_its_words_are_in_order() {
    let query = Query::parse("error disk").unwrap();
    assert!(LogLine::in_order("2024 error on disk\n", Some(&query)));
    assert!(!LogLine::in_order("2024 disk error\n", Some(&query)));
    assert!(LogLine::in_order("2024 disk error\n", None));
}

#[test]
fn painted_text_has_the_colour_in_front_and_a_reset_behind() {
    let words = vec!["ERROR".to_string()];
    let shown = highlight_words("an error here", &words);
    assert!(shown.starts_with("an \x1b[31merror\x1b[0;"));
    assert!(shown.ends_with("m here"));
    assert_eq!(shown.matches("error").count(), 1);
    let mut show_separator = false;
    let with_context =
        LogLine { line: "x".to_string(), before: vec!["above".to_string()], after: vec![] };
    let lines = render_line(&with_context, &words, &mut show_separator);
    assert!(lines[0].starts_with("\x1b[97mabove\x1b[0;"));
    assert!(lines[0].ends_with('m'));
    assert_eq!(lines[1], "x");
}

#[test]
fn text_that_begins_a_control_sequence_takes_the_colour_as_a_parameter() {
    let words = vec!["\x1b[B".to_string()];
    assert_eq!(highlight_words("a\x1b[b", &words), "a\x1b[31;b");
    let mut show_separator = false;
    let with_context =
        LogLine { line: "x".to_string(), before: vec![], after: vec!["\x1b[1mbold".to_string()] };
    let lines = render_line(&with_context, &Vec::new(), &mut show_separator);
    assert_eq!(lines, vec!["x", "\x1b[97;1mbold"]);
}

#[test]
fn every_part_with_a_word_is_painted() {
    let words = vec!["DISK".to_string(), "ERROR".to_string()];
    let shown = highlight_words("error: Disk full, disk gone", &words);
    let parts: Vec<&str> = shown.split("\x1b[31m").collect();
    assert_eq!(parts.len(), 4);
    assert_eq!(parts[0], "");
    assert!(parts[1].starts_with("error\x1b[0;") && parts[1].ends_with("m: "));
    assert!(parts[2].starts_with("Disk\x1b[0;") && parts[2].ends_with("m full, "));
    assert!(parts[3].starts_with("disk\x1b[0;") && parts[3].ends_with("m gone"));
}

#[test]
fn white_space_at_the_end_is_trimmed() {
    assert_eq!(trim_end("a line \t\r\n"), "a line");
    assert_eq!(trim_end("  a  line"), "  a  line");
    assert_eq!(trim_end(" \n "), "");
    assert_eq!(trim_end(""), "");
    assert_eq!(trim_end("wide\u{3000}\u{a0}"), "wide");
    assert_eq!(trim_end("zero\u{200b}"), "zero\u{200b}");
}
