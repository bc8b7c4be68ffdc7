//! Whole-collection behaviour: the full per-record pipeline,
//! duplicate-key resolution, merging, and the ignore filter.

use ccj_postprocess::compile_commands::append_entries;
use ccj_postprocess::compile_commands::cpp_file_paths;
use ccj_postprocess::compile_commands::deduplicate_with_policy;
use ccj_postprocess::compile_commands::is_cpp_file;
use ccj_postprocess::compile_commands::CompileCommand;
use ccj_postprocess::compile_commands::DedupPolicy;
use ccj_postprocess::postprocess_config::PostProcessConfig;

fn entry(directory: &str, file: &str, command: &str) -> CompileCommand {
    CompileCommand {
        command: command.to_string(),
        arguments: vec![],
        directory: directory.to_string(),
        file: file.to_string(),
        output: String::new(),
    }
}

#[test]
fn postprocess_default_pipeline() {
    let mut cc = entry("/path/to/project", "test.cpp", "g++ -I. -DNDEBUG -o test test.cpp");
    let config = Some(PostProcessConfig::default());
    cc.postprocess(&config).unwrap();
    assert_eq!(
        cc.arguments,
        vec!["g++", "-I/path/to/project", "-DNDEBUG", "-o", "test", "test.cpp"]
            .into_iter()
            .map(String::from)
            .collect::<Vec<_>>()
    );
    assert_eq!(cc.command, "g++ -I/path/to/project -DNDEBUG -o test test.cpp");
    assert_eq!(cc.directory, "/path/to/project");
    assert_eq!(cc.file, "test.cpp");
}

#[test]
fn postprocess_without_config_equals_default_config() {
    let mut with_none = entry("/p", "a.cpp", "cc -I. -Ix a.cpp");
    let mut with_default = with_none.clone();
    with_none.postprocess(&None).unwrap();
    with_default.postprocess(&Some(PostProcessConfig::default())).unwrap();
    assert_eq!(with_none.arguments, with_default.arguments);
    assert_eq!(with_none.command, with_default.command);
}

#[test]
fn postprocess_full_rule_set() {
    let mut cc = entry("/proj", "m.cpp", "");
    cc.arguments = vec!["g++", "-g", "-O2", "-I.", "-DV='x y'", "m.cpp", "-g"]
        .into_iter()
        .map(String::from)
        .collect();
    let config = Some(PostProcessConfig {
        remove: vec!["-g".to_string()],
        insert: vec!["-DEXTRA=1x".to_string()],
        replace: vec!["-O2,-O3".to_string()],
        ignore_files: vec![],
    });
    cc.postprocess(&config).unwrap();
    assert_eq!(
        cc.arguments,
        vec!["g++", "-DEXTRA=1x", "-O3", "-I/proj", "-DV=x y", "m.cpp"]
            .into_iter()
            .map(String::from)
            .collect::<Vec<_>>()
    );
    assert_eq!(cc.command, "g++ -DEXTRA=1x -O3 -I/proj -DV='x y' m.cpp");
}

#[test]
fn postprocess_invalid_remove_pattern_changes_nothing() {
    let mut cc = entry("/p", "a.cpp", "cc -I. a.cpp");
    let before = cc.clone();
    let config = Some(PostProcessConfig {
        remove: vec!["[".to_string()],
        insert: vec![],
        replace: vec![],
        ignore_files: vec![],
    });
    let err = cc.postprocess(&config).unwrap_err();
    assert_eq!(err.pattern, "[");
    assert_eq!(cc, before);
}

#[test]
fn dedup_policies_end_to_end() {
    let first = entry("/p", "a.cpp", "cc one a.cpp");
    let second = entry("/p", "a.cpp", "cc two a.cpp");
    let all = vec![first.clone(), second.clone()];

    let kept = deduplicate_with_policy(all.clone(), DedupPolicy::Keep);
    assert_eq!(kept.len(), 2);
    assert_eq!(kept[0], first);
    assert_eq!(kept[1], second);

    let firsts = deduplicate_with_policy(all.clone(), DedupPolicy::RetainFirst);
    assert_eq!(firsts.len(), 1);
    assert_eq!(firsts[0], first);

    let lasts = deduplicate_with_policy(all, DedupPolicy::RetainLast);
    assert_eq!(lasts.len(), 1);
    assert_eq!(lasts[0], second);
}

#[test]
fn retain_first_preserves_order_of_survivors() {
    let a = entry("/p", "a.cpp", "one");
    let b = entry("/p", "b.cpp", "two");
    let a2 = entry("/p", "a.cpp", "three");
    let c = entry("/p", "c.cpp", "four");
    let out = CompileCommand::deduplicate_with_retain_first(vec![
        a.clone(),
        b.clone(),
        a2,
        c.clone(),
    ]);
    assert_eq!(out, vec![a, b, c]);
}

#[test]
fn retain_last_preserves_order_of_survivors() {
    let a = entry("/p", "a.cpp", "one");
    let b = entry("/p", "b.cpp", "two");
    let a2 = entry("/p", "a.cpp", "three");
    let c = entry("/p", "c.cpp", "four");
    let out = CompileCommand::deduplicate_with_retain_last(vec![a, b.clone(), a2.clone(), c.clone()]);
    assert_eq!(out, vec![b, a2, c]);
}

#[test]
fn dedup_key_is_plain_concatenation() {
    // "/a/b" + "c.cpp" and "/a/" + "bc.cpp" concatenate to the same key
    let x = entry("/a/b", "c.cpp", "one");
    let y = entry("/a/", "bc.cpp", "two");
    let out = CompileCommand::deduplicate_with_retain_first(vec![x.clone(), y]);
    assert_eq!(out, vec![x]);
}

#[test]
fn merge_appends_in_source_order() {
    let a = entry("/p", "a.cpp", "one");
    let b = entry("/p", "b.cpp", "two");
    let c = entry("/q", "a.cpp", "three");
    let mut all = vec![a.clone()];
    append_entries(&mut all, vec![b.clone(), c.clone()]);
    assert_eq!(all, vec![a, b, c]);
}

#[test]
fn ignore_filter_matches_full_path() {
    let keep = entry("/p", "src/y.cpp", "cc");
    let gone = entry("/p", "gen/x.cpp", "cc");
    let mut entries = vec![keep.clone(), gone];
    let config = PostProcessConfig {
        remove: vec![],
        insert: vec![],
        replace: vec![],
        ignore_files: vec!["gen/".to_string()],
    };
    CompileCommand::process_config(&mut entries, &config).unwrap();
    assert_eq!(entries, vec![keep]);
}

#[test]
fn ignore_filter_anchored_pattern_misses_full_path() {
    // the anchored pattern does not match "/p/gen/x.cpp"
    let kept = entry("/p", "gen/x.cpp", "cc");
    let mut entries = vec![kept.clone()];
    let config = PostProcessConfig {
        remove: vec![],
        insert: vec![],
        replace: vec![],
        ignore_files: vec!["^gen/".to_string()],
    };
    CompileCommand::process_config(&mut entries, &config).unwrap();
    assert_eq!(entries, vec![kept]);
}

#[test]
fn ignore_filter_invalid_pattern_changes_nothing() {
    let a = entry("/p", "a.cpp", "cc");
    let mut entries = vec![a.clone()];
    let config = PostProcessConfig {
        remove: vec![],
        insert: vec![],
        replace: vec![],
        ignore_files: vec!["(".to_string()],
    };
    let err = CompileCommand::process_config(&mut entries, &config).unwrap_err();
    assert_eq!(err.pattern, "(");
    assert_eq!(entries, vec![a]);
}

#[test]
fn ignore_filter_empty_pattern_list_keeps_everything() {
    let a = entry("/p", "a.cpp", "cc");
    let mut entries = vec![a.clone()];
    let config = PostProcessConfig::default();
    CompileCommand::process_config(&mut entries, &config).unwrap();
    assert_eq!(entries, vec![a]);
}

#[test]
fn cpp_file_recognition() {
    assert!(is_cpp_file("a.cpp"));
    assert!(is_cpp_file("a.cxx"));
    assert!(is_cpp_file("a.cc"));
    assert!(is_cpp_file("a.c++"));
    assert!(is_cpp_file("a.C"));
    assert!(!is_cpp_file("a.c"));
    assert!(!is_cpp_file("a.h"));
    assert!(!is_cpp_file("acpp"));
}

#[test]
fn cpp_paths_filter_and_format() {
    let entries = vec![
        entry("/p", "a.cpp", "cc"),
        entry("/p", "b.h", "cc"),
        entry("/q", "c.cc", "cc"),
    ];
    let paths = cpp_file_paths(&entries);
    assert_eq!(paths, vec!["/p/a.cpp".to_string(), "/q/c.cc".to_string()]);
}

#[test]
fn full_path_and_query_matching() {
    let cc = entry("/p/sub", "a.cpp", "cc");
    assert_eq!(cc.full_path(), "/p/sub/a.cpp");
    assert!(cc.matches_file_query("a.cpp"));
    assert!(cc.matches_file_query("/p/sub/a.cpp"));
    assert!(!cc.matches_file_query("b.cpp"));
}
