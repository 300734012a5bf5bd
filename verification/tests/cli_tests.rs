use word_grid::cli::{parse_args, parse_positive_usize, usage, Config};

fn args(list: &[&str]) -> Vec<String> {
    list.iter().map(|s| s.to_string()).collect()
}

#[test]
fn parses_required_options_and_cells() {
    let config = parse_args(args(&[
        "--size",
        "2",
        "--min-length",
        "3",
        "--dict",
        "words.txt",
        "c",
        "a",
        "t",
        "s",
    ]))
    .expect("valid args");

    assert_eq!(
        config,
        Config {
            size: 2,
            min_length: 3,
            dict_path: "words.txt".to_string(),
            cells: vec!["c".into(), "a".into(), "t".into(), "s".into()],
        }
    );
}

#[test]
fn rejects_invalid_size() {
    let err = parse_args(args(&["--size", "0", "--min-length", "3", "a"]))
        .expect_err("zero size should fail");

    assert_eq!(err, "--size must be greater than 0");
}

#[test]
fn parse_args_defaults_the_word_list_and_reports_missing_options() {
    let config = parse_args(args(&["x", "--min-length", "+4", "--size", "1"])).unwrap();
    assert_eq!(config.dict_path, "twl06.txt");
    assert_eq!(config.size, 1);
    assert_eq!(config.min_length, 4);
    assert_eq!(config.cells, vec!["x".to_string()]);

    let usage_text = usage();
    assert_eq!(parse_args(args(&["--min-length", "3"])).unwrap_err(), format!("--size is required\n\n{usage_text}"));
    assert_eq!(parse_args(args(&["--size", "3"])).unwrap_err(), format!("--min-length is required\n\n{usage_text}"));
    assert_eq!(parse_args(args(&["-h"])).unwrap_err(), usage_text);
    assert_eq!(parse_args(args(&["a", "--help", "--bogus"])).unwrap_err(), usage_text);
    assert_eq!(parse_args(args(&["--bogus"])).unwrap_err(), format!("unknown option '--bogus'\n\n{usage_text}"));
    assert_eq!(parse_args(args(&["--size"])).unwrap_err(), "--size requires a value");
    assert_eq!(parse_args(args(&["--size", "2", "--min-length"])).unwrap_err(), "--min-length requires a value");
    assert_eq!(parse_args(args(&["--dict"])).unwrap_err(), "--dict requires a path");
    assert_eq!(parse_args(args(&["--size", "--dict"])).unwrap_err(), "--size must be a positive integer");
}

#[test]
fn positive_numbers_follow_usize_parsing() {
    assert_eq!(parse_positive_usize("--size", "42"), Ok(42));
    assert_eq!(parse_positive_usize("--size", "+7"), Ok(7));
    assert_eq!(parse_positive_usize("--size", "007"), Ok(7));
    assert_eq!(parse_positive_usize("--size", "18446744073709551615"), Ok(usize::MAX));
    assert_eq!(parse_positive_usize("--n", "0"), Err("--n must be greater than 0".to_string()));
    for bad in ["", "+", "-1", " 1", "1x", "++1", "18446744073709551616", "99999999999999999999999"] {
        assert_eq!(parse_positive_usize("--n", bad), Err("--n must be a positive integer".to_string()), "{bad:?}");
        assert_eq!(bad.parse::<usize>().is_err(), true);
    }
}

#[test]
fn usage_lists_the_options_and_an_example() {
    assert_eq!(
        usage(),
        [
            "Usage:",
            "  word-grid-solver --size <N> --min-length <N> [--dict <PATH>] <CELL>...",
            "",
            "Example:",
            "  word-grid-solver --size 2 --min-length 3 c a t s",
        ]
        .join("\n")
    );
}
