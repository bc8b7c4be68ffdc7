//! Token-level behaviour of the rewrite passes.

use ccj_postprocess::compile_commands::CompileCommand;

fn toks(v: &[&str]) -> Vec<String> {
    v.iter().map(|s| s.to_string()).collect()
}

#[test]
fn define_eq_recognition() {
    assert!(CompileCommand::is_arg_with_d_and_equal("-DNDEBUG=1x"));
    assert!(CompileCommand::is_arg_with_d_and_equal("-DVAR=a b"));
    assert!(!CompileCommand::is_arg_with_d_and_equal("-DNDEBUG"));
    assert!(!CompileCommand::is_arg_with_d_and_equal("-O2"));
    // more than one '=' is left alone
    assert!(!CompileCommand::is_arg_with_d_and_equal("-DA=b=c"));
    // value shorter than two characters
    assert!(!CompileCommand::is_arg_with_d_and_equal("-DA=b"));
}

#[test]
fn single_quote_recognition() {
    assert!(CompileCommand::is_need_to_handle_sing_quota("-DEXTERN='abc'"));
    assert!(!CompileCommand::is_need_to_handle_sing_quota("-DEXTERN=abc"));
    assert!(!CompileCommand::is_need_to_handle_sing_quota("-DEXTERN='abc"));
    assert!(!CompileCommand::is_need_to_handle_sing_quota("plain"));
}

#[test]
fn quote_stripping() {
    let mut args = toks(&["-DEXTERN='abc'", "-O2"]);
    CompileCommand::handle_the_single_quote(&mut args);
    assert_eq!(args, toks(&["-DEXTERN=abc", "-O2"]));
    // a stripped value without spaces stays unquoted through a join
    let joined = CompileCommand::join_the_arguments_as_commands(&args);
    assert_eq!(joined, "-DEXTERN=abc -O2");
}

#[test]
fn quote_strip_empty_value() {
    let mut args = toks(&["-DX=''"]);
    CompileCommand::handle_the_single_quote(&mut args);
    assert_eq!(args, toks(&["-DX="]));
}

#[test]
fn join_quotes_values_with_spaces() {
    let args = toks(&["gcc", "-DVAR=a b", "main.cpp"]);
    let joined = CompileCommand::join_the_arguments_as_commands(&args);
    assert_eq!(joined, "gcc -DVAR='a b' main.cpp");

    let args_no_space = toks(&["gcc", "-DVAR=ab", "main.cpp"]);
    let joined_no_space = CompileCommand::join_the_arguments_as_commands(&args_no_space);
    assert_eq!(joined_no_space, "gcc -DVAR=ab main.cpp");
}

#[test]
fn join_empty_token_list() {
    let args: Vec<String> = Vec::new();
    assert_eq!(CompileCommand::join_the_arguments_as_commands(&args), "");
}

#[test]
fn dedup_keeps_first_occurrence() {
    let mut args = toks(&["-I.", "-g", "-I.", "-g", "-Wall"]);
    CompileCommand::remove_duplicate_option(&mut args);
    assert_eq!(args, toks(&["-I.", "-g", "-Wall"]));
}

#[test]
fn dedup_twice_equals_once() {
    let mut once = toks(&["a", "b", "a", "c", "b", "a"]);
    CompileCommand::remove_duplicate_option(&mut once);
    let mut twice = once.clone();
    CompileCommand::remove_duplicate_option(&mut twice);
    assert_eq!(once, twice);
}

#[test]
fn search_path_relative_resolution() {
    let mut args = toks(&["-I../include", "-O2"]);
    CompileCommand::handle_header_search_path(&mut args, "/home/user/project/src");
    assert_eq!(args[0], "-I/home/user/project/include");
    assert_eq!(args[1], "-O2");
}

#[test]
fn search_path_dot_resolution() {
    let mut args = toks(&["-I."]);
    CompileCommand::handle_header_search_path(&mut args, "/path/to/project");
    assert_eq!(args[0], "-I/path/to/project");
}

#[test]
fn search_path_absolute_kept() {
    let mut args = toks(&["-I/usr/local/include"]);
    CompileCommand::handle_header_search_path(&mut args, "/home/user/project/src");
    assert_eq!(args[0], "-I/usr/local/include");
}

#[test]
fn search_path_rewrite_is_stable() {
    let mut args = toks(&["-I../include", "-Isub/dir", "-I/abs/x/../y"]);
    CompileCommand::handle_header_search_path(&mut args, "/base/src");
    let first = args.clone();
    CompileCommand::handle_header_search_path(&mut args, "/somewhere/else");
    assert_eq!(args, first);
    assert!(args.iter().all(|a| a.starts_with("-I/")));
}

#[test]
fn remove_matches_patterns_anywhere() {
    let mut args = toks(&["g++", "-g", "-O2", "-Wall"]);
    let pats = toks(&["-g", "-O."]);
    CompileCommand::remove_option(&mut args, &pats).unwrap();
    assert_eq!(args, toks(&["g++", "-Wall"]));
}

#[test]
fn remove_rejects_invalid_pattern() {
    let mut args = toks(&["g++", "-g"]);
    let pats = toks(&["-g", "("]);
    let err = CompileCommand::remove_option(&mut args, &pats).unwrap_err();
    assert_eq!(err.pattern, "(");
    // nothing was removed
    assert_eq!(args, toks(&["g++", "-g"]));
}

#[test]
fn replace_applies_rules_in_order() {
    let mut args = toks(&["-O2", "--param=val1"]);
    let rules = toks(&["-O2,-O3", "val1,val2"]);
    CompileCommand::replace_option(&mut args, &rules);
    assert_eq!(args, toks(&["-O3", "--param=val2"]));
}

#[test]
fn replace_rules_compound_on_one_token() {
    let mut args = toks(&["alpha"]);
    let rules = toks(&["alpha,beta", "beta,gamma"]);
    CompileCommand::replace_option(&mut args, &rules);
    assert_eq!(args, toks(&["gamma"]));
}

#[test]
fn replace_skips_malformed_rules() {
    let mut args = toks(&["-O2"]);
    let rules = toks(&["nocomma", "a,b,c", "-O2,-O1"]);
    CompileCommand::replace_option(&mut args, &rules);
    assert_eq!(args, toks(&["-O1"]));
}

#[test]
fn insert_goes_right_after_compiler() {
    let mut args = toks(&["compiler", "x", "y"]);
    let ins = toks(&["A", "B"]);
    CompileCommand::insert_needed_option(&mut args, &ins);
    assert_eq!(args, toks(&["compiler", "A", "B", "x", "y"]));
}

#[test]
fn insert_into_longer_command() {
    let mut args = toks(&["g++", "-o", "main", "main.cpp"]);
    let ins = toks(&["-DDEBUG", "-Wall"]);
    CompileCommand::insert_needed_option(&mut args, &ins);
    assert_eq!(args, toks(&["g++", "-DDEBUG", "-Wall", "-o", "main", "main.cpp"]));
}

#[test]
fn init_arguments_splits_command() {
    let mut cc = CompileCommand {
        command: "g++ -o main main.cpp".to_string(),
        arguments: vec![],
        directory: "/".to_string(),
        file: "main.cpp".to_string(),
        output: "main".to_string(),
    };
    cc.init_arguments();
    assert_eq!(cc.arguments, toks(&["g++", "-o", "main", "main.cpp"]));
}

#[test]
fn init_arguments_keeps_existing() {
    let mut cc = CompileCommand {
        command: "g++ -o main main.cpp".to_string(),
        arguments: vec!["g++".to_string()],
        directory: "/".to_string(),
        file: "main.cpp".to_string(),
        output: "main".to_string(),
    };
    cc.init_arguments();
    assert_eq!(cc.arguments, toks(&["g++"]));
}

#[test]
fn init_arguments_empty_command_gives_one_empty_token() {
    let mut cc = CompileCommand {
        command: String::new(),
        arguments: vec![],
        directory: "/".to_string(),
        file: "a.cpp".to_string(),
        output: String::new(),
    };
    cc.init_arguments();
    assert_eq!(cc.arguments, vec![String::new()]);
}
