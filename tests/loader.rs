use param_loader::params::{load_str, ConfigError, Field, Loaded, Schema};

fn strings(v: &[&str]) -> Vec<String> {
    v.iter().map(|s| s.to_string()).collect()
}

fn load_ok(text: &str, schema: &Schema) -> Loaded {
    match load_str(text, schema) {
        Ok(l) => l,
        Err(e) => panic!("unexpected error {:?}", e),
    }
}

const LATTICE: &str = "outputfile: out.txt\nLx: 4\nLy: 4\nmonte_carlo_trials: 10\ntemperature: 1.0, 2.0, 3.0";

#[test]
fn lattice_file_parses_to_declared_values() {
    let l = load_ok(LATTICE, &Schema::lattice());
    let p = &l.params;
    assert_eq!(p.output_file_name, Some("out.txt".to_string()));
    assert_eq!(p.lx, Some(4));
    assert_eq!(p.ly, Some(4));
    assert_eq!(p.monte_carlo_trials, Some(10));
    assert_eq!(p.temperature, Some(strings(&["1.0", "2.0", "3.0"])));
    let temps: Vec<f32> = p.temperature.as_ref().unwrap().iter().map(|t| t.parse().unwrap()).collect();
    assert_eq!(temps, vec![1.0_f32, 2.0, 3.0]);
    assert_eq!(p.length, None);
    assert_eq!(p.my_bool, None);
    assert!(l.warnings.is_empty());
}

#[test]
fn unknown_key_gives_one_warning() {
    let text = format!("{}\nfoo: bar", LATTICE);
    let l = load_ok(&text, &Schema::lattice());
    assert_eq!(l.warnings, strings(&["foo"]));
    let plain = load_ok(LATTICE, &Schema::lattice());
    assert_eq!(l.params, plain.params);
}

#[test]
fn later_duplicate_key_wins() {
    let text = "outputfile: a.txt\nLx: 2\nmy_bool: true\noutputfile: b.txt";
    let l = load_ok(text, &Schema::flagged());
    assert_eq!(l.params.output_file_name, Some("b.txt".to_string()));
    assert_eq!(l.params.lx, Some(2));
    assert_eq!(l.params.my_bool, Some(true));
}

#[test]
fn missing_key_is_named() {
    let text = "outputfile: out.txt\nLx: 4\nmonte_carlo_trials: 10\ntemperature: 1.0";
    assert_eq!(load_str(text, &Schema::lattice()), Err(ConfigError::MissingField { key: Field::Ly }));
}

#[test]
fn first_missing_key_in_field_order() {
    let text = "temperature: 1.0";
    assert_eq!(
        load_str(text, &Schema::chain()),
        Err(ConfigError::MissingField { key: Field::OutputFile })
    );
    assert_eq!(
        load_str("outputfile: x\ntemperature: 1", &Schema::chain()),
        Err(ConfigError::MissingField { key: Field::Length })
    );
}

#[test]
fn empty_text_misses_output_file() {
    assert_eq!(load_str("", &Schema::flagged()), Err(ConfigError::MissingField { key: Field::OutputFile }));
}

#[test]
fn empty_temperature_list_is_rejected() {
    let text = "outputfile: out.txt\nlength: 3\nmonte_carlo_trials: 10\ntemperature:";
    assert_eq!(
        load_str(text, &Schema::chain()),
        Err(ConfigError::EmptyList { key: Field::Temperature })
    );
    let spaced = "outputfile: out.txt\nlength: 3\nmonte_carlo_trials: 10\ntemperature:   ";
    assert_eq!(
        load_str(spaced, &Schema::chain()),
        Err(ConfigError::EmptyList { key: Field::Temperature })
    );
}

#[test]
fn line_without_colon_is_malformed() {
    let text = "outputfile: out.txt\nLx 4\nmy_bool: true";
    assert_eq!(load_str(text, &Schema::flagged()), Err(ConfigError::MalformedLine { line_number: 2 }));
}

#[test]
fn blank_line_is_malformed() {
    let text = "outputfile: out.txt\n\nLx: 4\nmy_bool: true";
    assert_eq!(load_str(text, &Schema::flagged()), Err(ConfigError::MalformedLine { line_number: 2 }));
}

#[test]
fn first_failing_line_decides() {
    let text = "Lx: abc\nno colon here";
    assert_eq!(
        load_str(text, &Schema::flagged()),
        Err(ConfigError::TypeMismatch { key: Field::Lx, value: "abc".to_string() })
    );
}

#[test]
fn integer_value_mismatch() {
    let text = "outputfile: out.txt\nLx: abc\nmy_bool: true";
    assert_eq!(
        load_str(text, &Schema::flagged()),
        Err(ConfigError::TypeMismatch { key: Field::Lx, value: "abc".to_string() })
    );
    for bad in ["-1", "", "+", "1 2", "18446744073709551616", "4.0"] {
        let text = format!("outputfile: o\nLx: {}\nmy_bool: true", bad);
        assert_eq!(
            load_str(&text, &Schema::flagged()),
            Err(ConfigError::TypeMismatch { key: Field::Lx, value: bad.trim().to_string() }),
            "value {:?}",
            bad
        );
    }
}

#[test]
fn integer_values_accepted() {
    for (text, want) in [("0", 0usize), ("+5", 5), ("007", 7), ("18446744073709551615", usize::MAX)] {
        let file = format!("outputfile: o\nLx: {}\nmy_bool: false", text);
        let l = load_ok(&file, &Schema::flagged());
        assert_eq!(l.params.lx, Some(want));
        assert_eq!(l.params.my_bool, Some(false));
    }
}

#[test]
fn boolean_value_mismatch() {
    for bad in ["True", "yes", "1", ""] {
        let text = format!("outputfile: o\nLx: 1\nmy_bool: {}", bad);
        assert_eq!(
            load_str(&text, &Schema::flagged()),
            Err(ConfigError::TypeMismatch { key: Field::MyBool, value: bad.to_string() })
        );
    }
}

#[test]
fn float_value_mismatch() {
    for bad in ["1.0, x", "1.0,", "1.0,,2.0", "1.2.3", "e5", "1e", "1e+", ".", "+-1", "infinit"] {
        let text = format!("outputfile: o\nlength: 1\nmonte_carlo_trials: 1\ntemperature: {}", bad);
        assert_eq!(
            load_str(&text, &Schema::chain()),
            Err(ConfigError::TypeMismatch { key: Field::Temperature, value: bad.to_string() }),
            "value {:?}",
            bad
        );
    }
}

#[test]
fn float_literals_accepted() {
    let items = ["1", "-2.5", "+.5", "5.", "1e5", "2.5E-3", "inf", "-Infinity", "NaN", "7e+2"];
    let text = format!("outputfile: o\nlength: 1\nmonte_carlo_trials: 1\ntemperature: {}", items.join(" , "));
    let l = load_ok(&text, &Schema::chain());
    assert_eq!(l.params.temperature, Some(strings(&items)));
    for t in items {
        assert!(t.parse::<f32>().is_ok(), "{}", t);
    }
}

#[test]
fn chain_schema_reads_length() {
    let text = "outputfile: run.dat\nlength: 12\nmonte_carlo_trials: 3\ntemperature: 0.5\n";
    let l = load_ok(text, &Schema::chain());
    assert_eq!(l.params.length, Some(12));
    assert_eq!(l.params.lx, None);
    assert_eq!(l.params.temperature, Some(strings(&["0.5"])));
}

#[test]
fn key_of_other_schema_is_unknown() {
    let text = "outputfile: o\nLx: 1\nmy_bool: true\nlength: 5";
    let l = load_ok(text, &Schema::flagged());
    assert_eq!(l.warnings, strings(&["length"]));
    assert_eq!(l.params.length, None);
}

#[test]
fn whitespace_and_crlf_are_trimmed() {
    let text = "  outputfile :\t my file.txt \r\nLx:4\r\n my_bool : true\r\n";
    let l = load_ok(text, &Schema::flagged());
    assert_eq!(l.params.output_file_name, Some("my file.txt".to_string()));
    assert_eq!(l.params.lx, Some(4));
    assert_eq!(l.params.my_bool, Some(true));
}

#[test]
fn value_splits_at_first_colon() {
    let text = "outputfile: C:/runs/out.txt\nLx: 1\nmy_bool: true";
    let l = load_ok(text, &Schema::flagged());
    assert_eq!(l.params.output_file_name, Some("C:/runs/out.txt".to_string()));
}

#[test]
fn keys_are_case_sensitive() {
    let text = "outputfile: o\nlx: 1\nLx: 2\nmy_bool: true";
    let l = load_ok(text, &Schema::flagged());
    assert_eq!(l.params.lx, Some(2));
    assert_eq!(l.warnings, strings(&["lx"]));
}

#[test]
fn non_ascii_text_is_kept() {
    let text = "outputfile: résultat.txt\nLx: 3\nmy_bool: false\nTempératur: 1";
    let l = load_ok(text, &Schema::flagged());
    assert_eq!(l.params.output_file_name, Some("résultat.txt".to_string()));
    assert_eq!(l.warnings, strings(&["Températur"]));
}

#[test]
fn field_keys() {
    assert_eq!(Field::OutputFile.key(), "outputfile");
    assert_eq!(Field::MonteCarloTrials.key(), "monte_carlo_trials");
    assert_eq!(Field::MyBool.key(), "my_bool");
}
