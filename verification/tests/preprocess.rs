use trx_engine::preprocess::{include_path, line_count, locate, split_lines, Preprocessor};

#[test]
fn plain_file_maps_to_itself() {
    let mut p = Preprocessor::new("main.trx".to_string());
    for line in split_lines("# D\nA -> B\nB -> C") {
        assert_eq!(p.feed_line(&line), None);
    }
    let r = p.finish();
    assert_eq!(r.flattened_code, "# D\nA -> B\nB -> C\n");
    assert_eq!(r.source_map.len(), 1);
    assert_eq!(r.source_map[0].file_path, "main.trx");
    assert_eq!((r.source_map[0].flattened_start_line, r.source_map[0].flattened_end_line), (1, 3));
    for line in 1..=3 {
        assert_eq!(locate(&r.source_map, line, "main.trx"), ("main.trx".to_string(), line));
    }
}

#[test]
fn splice_moves_the_included_map() {
    let mut inc = Preprocessor::new("lib.trx".to_string());
    inc.feed_line("let a = 1");
    inc.feed_line("let b = 2");
    let inc = inc.finish();

    let mut p = Preprocessor::new("main.trx".to_string());
    assert_eq!(p.feed_line("# D"), None);
    assert_eq!(p.feed_line("  include \"lib.trx\" "), Some("lib.trx".to_string()));
    p.splice(inc);
    assert_eq!(p.feed_line("A"), None);
    let r = p.finish();
    assert_eq!(r.flattened_code, "# D\nlet a = 1\nlet b = 2\nA\n");
    assert_eq!(locate(&r.source_map, 1, "main.trx"), ("main.trx".to_string(), 1));
    assert_eq!(locate(&r.source_map, 2, "main.trx"), ("lib.trx".to_string(), 1));
    assert_eq!(locate(&r.source_map, 3, "main.trx"), ("lib.trx".to_string(), 2));
    assert_eq!(locate(&r.source_map, 4, "main.trx"), ("main.trx".to_string(), 3));
    assert_eq!(locate(&r.source_map, 9, "main.trx"), ("main.trx".to_string(), 9));
}

#[test]
fn include_lines() {
    assert_eq!(include_path("include \"a.trx\""), Some("a.trx".to_string()));
    assert_eq!(include_path("include a.trx"), None);
    assert_eq!(include_path("included \"a.trx\""), None);
    let mut p = Preprocessor::new("f".to_string());
    assert_eq!(p.feed_line("include nothing quoted"), None);
    assert_eq!(p.finish().flattened_code, "");
}

#[test]
fn lines_as_str_lines_gives_them() {
    assert_eq!(split_lines("a\r\nb\n\nc\n"), vec!["a", "b", "", "c"]);
    assert_eq!(line_count("a\nb"), 2);
    assert_eq!(line_count(""), 0);
}

fn flatten(path: &str, files: &[(&str, &str)]) -> trx_engine::preprocess::PreprocessorResult {
    let content = files.iter().find(|(p, _)| *p == path).unwrap().1;
    let mut p = Preprocessor::new(path.to_string());
    for line in split_lines(content) {
        if let Some(inc) = p.feed_line(&line) {
            let r = flatten(&inc, files);
            p.splice(r);
        }
    }
    p.finish()
}

#[test]
fn nested_includes_trace_every_line_back() {
    let files = [
        ("main.trx", "# D\ninclude \"mid.trx\"\nZ -> M1\n"),
        ("mid.trx", "M1\n  include \"leaf.trx\"\nM3"),
        ("leaf.trx", "L1\nL2\n"),
    ];
    let r = flatten("main.trx", &files);
    assert_eq!(r.flattened_code, "# D\nM1\nL1\nL2\nM3\nZ -> M1\n");
    let flat: Vec<String> = split_lines(&r.flattened_code);
    let starts: Vec<usize> = r.source_map.iter().map(|s| s.flattened_start_line).collect();
    let ends: Vec<usize> = r.source_map.iter().map(|s| s.flattened_end_line).collect();
    assert_eq!(starts, vec![1, 2, 3, 5, 6]);
    assert_eq!(ends, vec![1, 2, 4, 5, 6]);
    for (i, text) in flat.iter().enumerate() {
        let (file, line) = locate(&r.source_map, i + 1, "main.trx");
        let content = files.iter().find(|(p, _)| *p == file).unwrap().1;
        assert_eq!(&split_lines(content)[line - 1], text);
    }
}

#[test]
fn empty_included_file_first_shifts_the_map() {
    let mut p = Preprocessor::new("main.trx".to_string());
    assert_eq!(p.feed_line("include \"empty.trx\""), Some("empty.trx".to_string()));
    p.splice(Preprocessor::new("empty.trx".to_string()).finish());
    assert_eq!(p.feed_line("A"), None);
    let r = p.finish();
    assert_eq!(r.flattened_code, "\nA\n");
    assert_eq!(locate(&r.source_map, 1, "main.trx"), ("main.trx".to_string(), 2));
}
