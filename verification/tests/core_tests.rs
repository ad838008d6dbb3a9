use ghostenv::classify::{collect_keys, key_list, key_of_line, ClassifiedLine};
use ghostenv::errors::Error;
use ghostenv::reconcile::{
    overwrite_env_file, process_env_file, render_template, transform, Options,
};

#[test]
fn test_cli_generates_env_example() {
    let test_input = "DB_USER=root\nDB_PASS=secret\n# Comment\nAPI_KEY=12345";
    let output = overwrite_env_file(test_input, false);
    let expected_output = "DB_USER=\nDB_PASS=\nAPI_KEY=";
    assert_eq!(output, expected_output);
}

#[test]
fn test_cli_fails_on_missing_file() {
    let err = Error::InputFileNotFound(String::from("non_existent.env"));
    assert_eq!(err.message(), "Input file 'non_existent.env' not found");
}

#[test]
fn overwrite_keeps_comments_when_asked() {
    let input = "DB_USER=root\n# Comment\nAPI_KEY=12345";
    let output = overwrite_env_file(input, true);
    assert_eq!(output, "DB_USER=\n# Comment\nAPI_KEY=");
}

#[test]
fn overwrite_drops_comments_by_default() {
    let input = "# first\nA=1\n  # indented comment\nB=2";
    let output = overwrite_env_file(input, false);
    assert_eq!(output, "A=\nB=");
    for line in output.split('\n') {
        assert!(!line.starts_with('#'));
    }
}

#[test]
fn overwrite_preserves_blank_lines() {
    let input = "A=1\n\nB=2";
    assert_eq!(overwrite_env_file(input, false), "A=\n\nB=");
}

#[test]
fn overwrite_is_idempotent_on_keys() {
    let input = "A=1\n# note\n\nbroken line\nB=2\nA=3";
    let once = overwrite_env_file(input, false);
    let twice = overwrite_env_file(&once, false);
    assert_eq!(once, twice);
    assert_eq!(key_list(&once), key_list(input));
}

#[test]
fn rendered_keys_round_trip() {
    let lines = vec![
        ClassifiedLine::KeyOnly(String::from("ALPHA")),
        ClassifiedLine::KeyOnly(String::from("BETA")),
        ClassifiedLine::KeyOnly(String::from("GAMMA")),
    ];
    let rendered = render_template(&lines);
    assert_eq!(rendered, "ALPHA=\nBETA=\nGAMMA=");
    assert_eq!(key_list(&rendered), vec!["ALPHA", "BETA", "GAMMA"]);
}

#[test]
fn append_renders_only_missing_keys() {
    let source = "A=1\nB=2\nC=3";
    let existing = "B=old";
    assert_eq!(process_env_file(source, existing, false), "A=\nC=");
}

#[test]
fn append_skips_duplicate_source_keys() {
    let source = "A=1\nA=2\nB=3";
    assert_eq!(process_env_file(source, "", false), "A=\nB=");
}

#[test]
fn append_with_nothing_missing_is_empty() {
    let source = "A=1\nB=2";
    let existing = "A=\nB=\nC=";
    assert_eq!(process_env_file(source, existing, false), "");
}

#[test]
fn append_matches_keys_not_values() {
    let source = "A=new value\nB=2";
    let existing = "A=completely different";
    assert_eq!(process_env_file(source, existing, false), "B=");
}

#[test]
fn malformed_lines_are_dropped() {
    let input = "A=1\nnot a pair\nB=2";
    assert_eq!(overwrite_env_file(input, false), "A=\nB=");
    assert_eq!(key_list(input), vec!["A", "B"]);
}

#[test]
fn keys_are_trimmed_and_split_at_first_equals() {
    assert_eq!(overwrite_env_file("  KEY = value ", false), "KEY=");
    assert_eq!(overwrite_env_file("A=b=c", false), "A=");
    assert_eq!(key_of_line("  SPACED KEY = x "), Some(String::from("SPACED KEY")));
    assert_eq!(key_of_line("# A=1"), None);
    assert_eq!(key_of_line("   "), None);
    assert_eq!(key_of_line("no equals sign"), None);
}

#[test]
fn empty_input_renders_empty() {
    assert_eq!(overwrite_env_file("", false), "");
    assert_eq!(process_env_file("", "", false), "");
}

#[test]
fn classifier_tags_each_line() {
    let lines = collect_keys(" \n# c\nA=1\njunk", true);
    assert_eq!(lines.len(), 3);
    assert_eq!(lines[0], ClassifiedLine::Blank);
    assert_eq!(lines[1], ClassifiedLine::Comment(String::from("# c")));
    assert_eq!(
        lines[2],
        ClassifiedLine::KeyValue(String::from("A"), String::from("A=1"))
    );
}

#[test]
fn classifier_drops_comments_when_not_kept() {
    let lines = collect_keys("# c\nA=1", false);
    assert_eq!(lines.len(), 1);
    assert_eq!(
        lines[0],
        ClassifiedLine::KeyValue(String::from("A"), String::from("A=1"))
    );
}

#[test]
fn transform_dispatches_on_overwrite_flag() {
    let mut options = Options {
        input_file: String::from(".env"),
        output_file: String::from(".env.example"),
        keep_comments: false,
        overwrite: true,
    };
    let source = "A=1\nB=2";
    let existing = "A=";
    assert_eq!(transform(&options, source, existing), "A=\nB=");
    options.overwrite = false;
    assert_eq!(transform(&options, source, existing), "B=");
}

#[test]
fn error_messages_match_each_kind() {
    assert_eq!(
        Error::InputFileNotFound(String::from(".env")).message(),
        "Input file '.env' not found"
    );
    assert_eq!(
        Error::OutputFileCreationFailed(String::from("out")).message(),
        "Output file 'out' could not be created"
    );
    assert_eq!(
        Error::EnvFileReadError(String::from(".env: denied")).message(),
        "Failed to read .env file '.env: denied'"
    );
    assert_eq!(
        Error::EnvFileWriteError(String::from("tpl")).message(),
        "Failed to write to .env.example file 'tpl'"
    );
    assert_eq!(
        Error::InvalidArgument(String::from("missing input")).message(),
        "Invalid command-line argument: missing input"
    );
    assert_eq!(
        Error::Unknown(String::from("boom")).message(),
        "Unexpected error: boom"
    );
}

#[test]
fn value_with_trailing_spaces_and_crlf() {
    let input = "A=1\r\nB=2\r\n";
    assert_eq!(overwrite_env_file(input, false), "A=\nB=");
}

#[test]
fn key_before_empty_value_is_kept() {
    assert_eq!(overwrite_env_file("=x\nA=", false), "=\nA=");
    assert_eq!(key_list("=x\nA="), vec!["", "A"]);
}
