use ttags::command::{choose_command, choose_store_command, Command};
use ttags::language::{extensions_of, language_for_extension, language_for_mime, str_equal, Language};
use ttags::text::{line_context, render_completion_line, render_search_line, trim, trim_start, white_space};

#[test]
fn trimming() {
    assert_eq!(trim_start("  \t x y "), "x y ");
    assert_eq!(trim("  \t x y \n"), "x y");
    assert_eq!(trim("   "), "");
    assert_eq!(trim(""), "");
    assert_eq!(trim_start("\u{3000}\u{a0}a"), "a");
    assert!(white_space('\u{2028}'));
    assert!(!white_space('\u{200b}'));
    assert_eq!(line_context("    int x = 1;  "), "int x = 1;  ");
}

#[test]
fn printed_lines() {
    assert_eq!(render_completion_line("src/a.rs", 12, "foo", true, "function"), "src/a.rs:12:foo:true:function");
    assert_eq!(render_completion_line("b.py", 0, "x", false, "?!?!?!"), "b.py:0:x:false:?!?!?!");
    assert_eq!(render_search_line("src/a.rs", 1234567, "let x = foo();"), "src/a.rs:1234567:let x = foo();");
}

#[test]
fn languages_by_mime_type() {
    assert_eq!(language_for_mime("text/x-rs"), Some(Language::Rust));
    assert_eq!(language_for_mime("text/plain"), Some(Language::Cpp));
    assert_eq!(language_for_mime("text/x-c"), Some(Language::Cpp));
    assert_eq!(language_for_mime("text/x-c++"), Some(Language::Cpp));
    assert_eq!(language_for_mime("text/x-js"), Some(Language::JavaScript));
    assert_eq!(language_for_mime("text/x-python"), Some(Language::Python));
    assert_eq!(language_for_mime("text/html"), None);
    assert_eq!(language_for_mime("text/x-rs "), None);
}

#[test]
fn languages_by_extension() {
    assert_eq!(language_for_extension("rs"), Some(Language::Rust));
    for ext in ["cc", "hh", "cpp", "hpp", "ipp", "h", "c"] {
        assert_eq!(language_for_extension(ext), Some(Language::Cpp));
    }
    assert_eq!(language_for_extension("js"), Some(Language::JavaScript));
    assert_eq!(language_for_extension("py"), Some(Language::Python));
    assert_eq!(language_for_extension("RS"), None);
    assert_eq!(extensions_of(Language::Cpp), vec!["cc", "hh", "cpp", "hpp", "ipp", "h", "c"]);
    assert_eq!(extensions_of(Language::Python), vec!["py"]);
    assert!(str_equal("ä", "ä"));
    assert!(!str_equal("a", "ab"));
}

#[test]
fn commands() {
    let s = |x: &str| Some(x.to_string());
    assert_eq!(choose_command(s("r"), s("d"), s("c"), s("p")), Command::FindReferences("r".to_string()));
    assert_eq!(choose_command(None, s("d"), s("c"), s("p")), Command::FindDefinitions("d".to_string()));
    assert_eq!(choose_command(None, None, s("c"), s("p")), Command::Complete("c".to_string()));
    assert_eq!(choose_command(None, None, None, s("p")), Command::Create("p".to_string()));
    assert_eq!(choose_command(None, None, None, None), Command::Create(".".to_string()));
    assert_eq!(choose_store_command(None, None, None), Command::Create(".".to_string()));
}
