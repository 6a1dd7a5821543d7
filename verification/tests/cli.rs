use om2nc::cli::{
    Entry, Verbosity, block_bytes, clean_variables, compact_steps, history, info_lines, inspected_run, model_names,
    shell_words, single_step, verbosity,
};
use om2nc::meta::{ModelStatus, RunMeta};
use om2nc::names::sort_names;
use om2nc::timefmt::UtcTime;

fn strings(v: &[&str]) -> Vec<String> {
    v.iter().map(|s| s.to_string()).collect()
}

#[test]
fn log_levels() {
    assert_eq!(verbosity(true, 2), Verbosity::Warn);
    assert_eq!(verbosity(false, 0), Verbosity::Info);
    assert_eq!(verbosity(false, 1), Verbosity::Debug);
    assert_eq!(verbosity(false, 9), Verbosity::Trace);
}

#[test]
fn block_sizes() {
    assert_eq!(block_bytes(0), 16384);
    assert_eq!(block_bytes(16), 16384);
    assert_eq!(block_bytes(32), 32768);
}

#[test]
fn variables_of_the_command_line() {
    assert_eq!(clean_variables(&strings(&[" a", "a ", "", "  ", "a", "b", "a"])), strings(&["a", "b", "a"]));
    assert!(clean_variables(&[]).is_empty());
}

#[test]
fn words_are_quoted() {
    assert_eq!(
        shell_words(&strings(&["om2nc", "", "a b", "it's", "$x", "a\"b", "a\\b", "`", "\u{a0}", "plain,--x=1"])),
        "om2nc '' 'a b' 'it'\\''s' '$x' 'a\"b' 'a\\b' '`' '\u{a0}' plain,--x=1"
    );
    assert_eq!(shell_words(&[]), "");
}

/// Split a line as a shell does: whitespace, single quotes, backslash.
fn split(line: &str) -> Vec<String> {
    let mut words = Vec::new();
    let mut word: Option<String> = None;
    let mut chars = line.chars();
    while let Some(c) = chars.next() {
        if c.is_whitespace() {
            words.extend(word.take());
            continue;
        }
        let w = word.get_or_insert_with(String::new);
        match c {
            '\'' => w.extend(chars.by_ref().take_while(|&q| q != '\'')),
            '\\' => w.extend(chars.next()),
            _ => w.push(c),
        }
    }
    words.extend(word);
    words
}

#[test]
fn quoted_words_are_split_back() {
    let argv = strings(&["om2nc", "", "a b", "it's", "''", "'", "$x", "a\"b", "a\\b", "\\'", "`", "\t\n", "plain,--x=1"]);
    assert_eq!(split(&shell_words(&argv)), argv);
    assert_eq!(split(&shell_words(&[])), strings(&[]));
    assert_eq!(split(&shell_words(&strings(&[""]))), strings(&[""]));
}

#[test]
fn the_history_attribute() {
    let now = UtcTime::from_timestamp(1789453815).unwrap();
    assert_eq!(
        history(now, "0.1.0", &strings(&["om2nc", "fetch", "a b"])),
        "2026-09-15T06:30:15Z om2nc 0.1.0: om2nc fetch 'a b'"
    );
}

#[test]
fn long_step_lists_are_cut() {
    let hours: Vec<String> = (0..17).map(|h| h.to_string()).collect();
    assert_eq!(compact_steps(&hours), "0,1,2,3,4,5,6,7 ... 13,14,15,16");
    assert_eq!(compact_steps(&hours[..16]), "0,1,2,3,4,5,6,7,8,9,10,11,12,13,14,15");
}

#[test]
fn models_of_a_listing() {
    let e = |name: &str, is_dir: bool| Entry { name: name.to_string(), is_dir };
    let v = model_names(&[e("jma_msm/", true), e("x.json", false), e("/", true), e("dwd_icon//", true), e("dwd", true)]);
    assert_eq!(v.unwrap(), strings(&["dwd", "dwd_icon", "jma_msm"]));
    assert_eq!(model_names(&[e("a", false)]).unwrap_err(), "no models found under data_spatial/");
}

#[test]
fn names_are_sorted_as_strings_are() {
    let mut v = strings(&["b", "a", "\u{10000}", "\u{ffff}", "ab", "", "a", "Z", "\u{e9}", "z"]);
    let s = sort_names(&v);
    v.sort_unstable();
    assert_eq!(s, v);
}

#[test]
fn info_of_a_status_file() {
    let m = RunMeta {
        completed: false,
        reference_time: "2026-09-15T00:00Z".to_string(),
        valid_times: strings(&["2026-09-15T03:00Z", "2026-09-15T00:15Z"]),
        variables: strings(&["a", "b", "c", "d", "e"]),
        crs_wkt: Some("  GEOGCRS[\"x\",  \r\n  more".to_string()),
        last_modified_time: Some("then".to_string()),
    };
    assert_eq!(
        info_lines("latest", Some(&m)).unwrap(),
        strings(&[
            "latest:",
            "  reference_time: 2026-09-15T00:00Z",
            "  completed:      false",
            "  last_modified:  then",
            "  steps (2):     0.25,3",
            "  variables (5):",
            "    a, b, c, d",
            "    e",
            "  crs:            GEOGCRS[\"x\",",
        ])
    );
    let short = RunMeta { completed: true, variables: strings(&["a", "b", "c", "d"]), crs_wkt: None, last_modified_time: None, ..m.clone() };
    assert_eq!(
        info_lines("x", Some(&short)).unwrap()[2..],
        strings(&["  completed:      true", "  steps (2):     0.25,3", "  variables (4):", "    a, b, c, d"])[..]
    );
    assert_eq!(info_lines("in-progress", None).unwrap(), strings(&["in-progress: (absent)"]));
    let bad = RunMeta { reference_time: "?".to_string(), ..m };
    assert!(info_lines("x", Some(&bad)).is_err());
}

#[test]
fn the_inspected_step_and_run() {
    assert_eq!(single_step("3"), Ok(180));
    assert_eq!(single_step("3,3"), Ok(180));
    assert_eq!(single_step("3,4"), Err("--step must be a single value for inspect".to_string()));
    assert_eq!(single_step("x"), Err("invalid step spec \"x\": bad value".to_string()));
    let t = UtcTime::from_timestamp(0).unwrap();
    let none = ModelStatus { latest: None, in_progress: None };
    assert_eq!(inspected_run(Some(t), &none), Ok(t));
    assert_eq!(inspected_run(None, &none), Err("latest.json missing; pass --init".to_string()));
    let run = RunMeta {
        completed: true,
        reference_time: "1970-01-01T00:00Z".to_string(),
        valid_times: Vec::new(),
        variables: Vec::new(),
        crs_wkt: None,
        last_modified_time: None,
    };
    let s = ModelStatus { latest: Some(run), in_progress: None };
    assert_eq!(inspected_run(None, &s), Ok(t));
}
