use cleanup_history::pipeline::{clean_history, HistoryError};
use cleanup_history::parse::ParseError;
use cleanup_history::text::{str_to_chars, chars_to_string, trim_chars, normalize_command,
    parse_u32, u32_chars, lex_le_exec};
use cleanup_history::record::{Record, record_le_exec};
use cleanup_history::parse::{Parser, is_marker};
use cleanup_history::classify::Classifier;

#[test]
fn exception_overrides_sensitive_ignore() {
    // "pass -c mail" matches the credential ignore rule (contains "pass")
    // and the exception rule; the exception wins and the command stays.
    let input = "#100\n\
                 pass -c mail\n\
                 ";
    let output = "#100\n\
                  pass -c mail\n\
                  ";
    assert_eq!(clean_history(input).unwrap().to_string(), output);
}

#[test]
fn sensitive_commands_are_dropped() {
    let input = "#100\n\
                 export API_TOKEN=abc\n\
                 #200\n\
                 echo hello\n\
                 ";
    let output = "#200\n\
                  echo hello\n\
                  ";
    assert_eq!(clean_history(input).unwrap().to_string(), output);
}

#[test]
fn sudo_reboot_is_dropped() {
    let input = "#100\n\
                 sudo reboot\n\
                 #200\n\
                 echo hello\n\
                 ";
    let output = "#200\n\
                  echo hello\n\
                  ";
    assert_eq!(clean_history(input).unwrap().to_string(), output);
}

#[test]
fn leading_zero_commands_are_dropped() {
    let input = "#100\n\
                 0;276;0c12345\n\
                 #200\n\
                 echo hello\n\
                 ";
    let output = "#200\n\
                  echo hello\n\
                  ";
    assert_eq!(clean_history(input).unwrap().to_string(), output);
}

#[test]
fn equal_timestamps_sort_lexicographically() {
    let input = "#100\n\
                 echo zebra\n\
                 #100\n\
                 echo apple\n\
                 ";
    let output = "#100\n\
                  echo apple\n\
                  #100\n\
                  echo zebra\n\
                  ";
    assert_eq!(clean_history(input).unwrap().to_string(), output);
}

#[test]
fn equal_timestamp_duplicate_collapses() {
    let input = "#100\n\
                 echo same\n\
                 #100\n\
                 echo same\n\
                 ";
    let output = "#100\n\
                  echo same\n\
                  ";
    assert_eq!(clean_history(input).unwrap().to_string(), output);
}

#[test]
fn malformed_timestamp_is_reported_and_dropped() {
    let input = "#99999999999\n\
                 echo huge\n\
                 #200\n\
                 echo hello\n\
                 ";
    let result = clean_history(input).unwrap();
    assert_eq!(result.to_string(), "#200\necho hello\n");
    assert_eq!(result.diagnostics.len(), 1);
    assert!(matches!(
        result.diagnostics[0],
        ParseError::MalformedTimestamp { .. }
    ));
}

#[test]
fn orphan_command_is_reported_and_dropped() {
    let input = "echo stray\n\
                 #200\n\
                 echo hello\n\
                 ";
    let result = clean_history(input).unwrap();
    assert_eq!(result.to_string(), "#200\necho hello\n");
    assert_eq!(result.diagnostics.len(), 1);
    assert!(matches!(result.diagnostics[0], ParseError::OrphanCommand { .. }));
}

#[test]
fn empty_command_unit_is_reported() {
    let input = "#100\n\
                 ;;\n\
                 #200\n\
                 echo hello\n\
                 ";
    let result = clean_history(input).unwrap();
    assert_eq!(result.to_string(), "#200\necho hello\n");
    assert_eq!(result.diagnostics.len(), 1);
    assert!(matches!(result.diagnostics[0], ParseError::EmptyCommand { timestamp: 100 }));
}

#[test]
fn all_dropped_reports_no_valid_commands() {
    let input = "#100\n\
                 cd ./tmp\n\
                 ";
    let result = clean_history(input);
    match result {
        Err(HistoryError::NoValidCommands { diagnostics }) => {
            assert_eq!(diagnostics.len(), 0);
        },
        _ => panic!("expected NoValidCommands"),
    }
}

#[test]
fn blank_lines_do_not_break_accumulation() {
    let input = "#100\n\
                 echo one\n\
                 \n\
                 echo two\n\
                 ";
    let output = "#100\n\
                  echo one; echo two\n\
                  ";
    assert_eq!(clean_history(input).unwrap().to_string(), output);
}

#[test]
fn pipeline_is_idempotent_on_its_output() {
    let input = "#456\n\
                 echo  foo   bar\n\
                 #123\n\
                 echo foo bar\n\
                 #300\n\
                 ls /tmp\n\
                 ";
    let once = clean_history(input).unwrap().to_string();
    let twice = clean_history(&once).unwrap().to_string();
    assert_eq!(once, twice);
}

#[test]
fn text_helpers_round_trip() {
    let chars = str_to_chars("héllo wörld");
    assert_eq!(chars_to_string(&chars), "héllo wörld");
    let trimmed = trim_chars(&str_to_chars("  spaced \t"));
    assert_eq!(chars_to_string(&trimmed), "spaced");
    let norm = normalize_command(&str_to_chars(" a   b;; "));
    assert_eq!(chars_to_string(&norm), "a b");
    let semis = normalize_command(&str_to_chars(" a   b ;; "));
    assert_eq!(chars_to_string(&semis), "a b ");
}

#[test]
fn digit_helpers_agree() {
    assert_eq!(parse_u32(&str_to_chars("4294967295")), Some(4294967295));
    assert_eq!(parse_u32(&str_to_chars("4294967296")), None);
    assert_eq!(parse_u32(&str_to_chars("0")), Some(0));
    assert_eq!(chars_to_string(&u32_chars(90210)), "90210");
    assert_eq!(chars_to_string(&u32_chars(0)), "0");
}

#[test]
fn comparisons_follow_the_total_order() {
    assert!(lex_le_exec(&str_to_chars("abc"), &str_to_chars("abd")));
    assert!(!lex_le_exec(&str_to_chars("abd"), &str_to_chars("abc")));
    assert!(lex_le_exec(&str_to_chars("ab"), &str_to_chars("abc")));
    let a = Record { timestamp: 5, command: str_to_chars("zzz") };
    let b = Record { timestamp: 6, command: str_to_chars("aaa") };
    assert!(record_le_exec(&a, &b));
    assert!(!record_le_exec(&b, &a));
}

#[test]
fn parser_reports_units_in_order() {
    let mut p = Parser::new();
    assert!(p.feed(&str_to_chars("#100")).is_none());
    assert!(p.feed(&str_to_chars("echo a")).is_none());
    let first = p.feed(&str_to_chars("#200")).unwrap().unwrap();
    assert_eq!(first.timestamp, 100);
    assert_eq!(chars_to_string(&first.command), "echo a");
    assert!(p.feed(&str_to_chars("echo b")).is_none());
    let last = p.finish().unwrap().unwrap();
    assert_eq!(last.timestamp, 200);
    assert_eq!(chars_to_string(&last.command), "echo b");
}

#[test]
fn marker_lines_are_exact() {
    assert!(is_marker(&str_to_chars("#123")));
    assert!(!is_marker(&str_to_chars("#")));
    assert!(!is_marker(&str_to_chars("#12a")));
    assert!(!is_marker(&str_to_chars(" #12")));
    assert!(!is_marker(&str_to_chars("#12 ")));
}

#[test]
fn bare_reboot_commands_are_dropped() {
    let cx = Classifier::new().unwrap();
    assert!(!cx.is_retained(&str_to_chars("reboot")));
    assert!(!cx.is_retained(&str_to_chars("shutdown")));
    assert!(!cx.is_retained(&str_to_chars("halt")));
    assert!(!cx.is_retained(&str_to_chars("reboot now")));
    assert!(!cx.is_retained(&str_to_chars("sudo shutdown -h now")));
}

#[test]
fn unicode_whitespace_collapses() {
    let input = "#100\necho\u{a0}one\u{2003}two\n";
    let output = "#100\necho one two\n";
    assert_eq!(clean_history(input).unwrap().to_string(), output);
}

#[test]
fn classifier_decides_per_rule() {
    let cx = Classifier::new().unwrap();
    assert!(!cx.is_retained(&str_to_chars("cd ./work")));
    assert!(!cx.is_retained(&str_to_chars("ls projects")));
    assert!(cx.is_retained(&str_to_chars("cd /tmp")));
    assert!(cx.is_retained(&str_to_chars("ls ~/docs")));
    assert!(!cx.is_retained(&str_to_chars("git")));
    assert!(!cx.is_retained(&str_to_chars("MY_SECRET=1 run")));
    assert!(cx.is_retained(&str_to_chars("PASS -C thing")));
    assert!(cx.is_retained(&str_to_chars("echo hello")));
}
