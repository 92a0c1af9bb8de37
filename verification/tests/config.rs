use effectful::config::{
    nested_path, parse_bool, parse_i64, read_bool, read_i64, read_nested_string, read_nested_string_list,
    read_string, read_string_list, read_string_opt, split_list, ConfigError, IntParseFailure, WithConfigDefault,
};

fn stored(s: &str) -> Result<Option<String>, ConfigError> {
    Ok(Some(s.to_string()))
}

fn missing(path: &str) -> ConfigError {
    ConfigError::Missing { path: path.to_string() }
}

fn invalid(path: &str, value: &str, reason: &str) -> ConfigError {
    ConfigError::Invalid { path: path.to_string(), value: value.to_string(), reason: reason.to_string() }
}

#[test]
fn nested_path_prepends_namespace() {
    assert_eq!(nested_path("SERVER", &["HOST"]), vec!["SERVER".to_string(), "HOST".to_string()]);
    assert_eq!(nested_path("A", &[]), vec!["A".to_string()]);
}

#[test]
fn read_string_reports_missing_with_dotted_path() {
    assert_eq!(read_string(&["a", "b"], stored("x")), Ok("x".to_string()));
    assert_eq!(read_string(&["a", "b"], Ok(None)), Err(missing("a.b")));
    assert_eq!(read_string(&["a"], Err(missing("other"))), Err(missing("other")));
}

#[test]
fn read_string_opt_maps_missing_to_none() {
    assert_eq!(read_string_opt(&["k"], Ok(None)), Ok(None));
    assert_eq!(read_string_opt(&["k"], stored("v")), Ok(Some("v".to_string())));
    assert_eq!(read_string_opt(&["k"], Err(missing("z"))), Err(missing("z")));
}

#[test]
fn parse_i64_matches_std() {
    for s in ["0", "-0", "+7", "42", "-42", "9223372036854775807", "-9223372036854775808", "007"] {
        assert_eq!(parse_i64(s), Ok(s.parse::<i64>().unwrap()), "{s}");
    }
    assert_eq!(parse_i64(""), Err(IntParseFailure::Empty));
    assert_eq!(parse_i64("+"), Err(IntParseFailure::InvalidDigit));
    assert_eq!(parse_i64("-"), Err(IntParseFailure::InvalidDigit));
    assert_eq!(parse_i64("1a"), Err(IntParseFailure::InvalidDigit));
    assert_eq!(parse_i64(" 1"), Err(IntParseFailure::InvalidDigit));
    assert_eq!(parse_i64("9223372036854775808"), Err(IntParseFailure::PosOverflow));
    assert_eq!(parse_i64("-9223372036854775809"), Err(IntParseFailure::NegOverflow));
    assert_eq!(parse_i64("99999999999999999999x"), Err(IntParseFailure::PosOverflow));
}

#[test]
fn read_i64_reports_std_reasons() {
    assert_eq!(read_i64(&["n"], stored("-12")), Ok(-12));
    assert_eq!(read_i64(&["n"], Ok(None)), Err(missing("n")));
    for s in ["", "x", "99999999999999999999", "-99999999999999999999"] {
        let reason = s.parse::<i64>().unwrap_err().to_string();
        assert_eq!(read_i64(&["a", "n"], stored(s)), Err(invalid("a.n", s, &reason)), "{s}");
    }
}

#[test]
fn read_bool_accepts_spellings_in_any_case() {
    for (s, b) in [("true", true), ("TRUE", true), ("Yes", true), ("1", true), ("false", false), ("No", false), ("0", false)] {
        assert_eq!(read_bool(&["f"], stored(s)), Ok(b), "{s}");
        assert_eq!(parse_bool(s), Some(b));
    }
    assert_eq!(read_bool(&["f"], stored("maybe")), Err(invalid("f", "maybe", "expected boolean string")));
    assert_eq!(read_bool(&["f"], Ok(None)), Err(missing("f")));
    assert_eq!(parse_bool(" true"), None);
}

#[test]
fn read_string_list_splits_trims_and_drops_empty_items() {
    assert_eq!(
        read_string_list(&["l"], stored(" a, b ,,c ,"), ","),
        Ok(vec!["a".to_string(), "b".to_string(), "c".to_string()])
    );
    assert_eq!(read_string_list(&["l"], Ok(None), ","), Err(missing("l")));
    assert_eq!(split_list("a::b:::c", "::"), vec!["a", "b", ":c"]);
    assert_eq!(split_list("a b", ""), vec!["a", "b"]);
    assert_eq!(split_list("", ","), Vec::<String>::new());
}

#[test]
fn split_list_matches_std() {
    for (s, d) in [("x,,y", ","), ("  ", ","), ("a--b--", "--"), ("---", "--"), ("é;ü ;", ";")] {
        let expected: Vec<String> =
            s.split(d).map(str::trim).filter(|x| !x.is_empty()).map(str::to_string).collect();
        assert_eq!(split_list(s, d), expected, "{s:?} {d:?}");
    }
}

#[test]
fn nested_reads_use_the_nested_path() {
    assert_eq!(read_nested_string("SERVER", &["HOST"], Ok(None)), Err(missing("SERVER.HOST")));
    assert_eq!(read_nested_string("SERVER", &["HOST"], stored("h")), Ok("h".to_string()));
    assert_eq!(read_nested_string_list("S", &["L", "M"], Ok(None), ","), Err(missing("S.L.M")));
    assert_eq!(read_nested_string_list("S", &["L"], stored("p,q"), ","), Ok(vec!["p".to_string(), "q".to_string()]));
}

#[test]
fn with_default_only_replaces_missing() {
    let r: Result<i64, ConfigError> = Err(missing("a"));
    assert_eq!(r.with_default(5), Ok(5));
    let r: Result<i64, ConfigError> = Err(invalid("a", "x", "bad"));
    assert_eq!(r.clone().with_default(5), r);
    let r: Result<i64, ConfigError> = Ok(1);
    assert_eq!(r.with_default(5), Ok(1));
}
