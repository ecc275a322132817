use process_builder::builder::{process, ProcessBuilder};
use process_builder::render::ShellStyle;

fn args_of(b: &ProcessBuilder) -> Vec<String> {
    b.get_args().clone()
}

#[test]
fn new_builder_is_empty() {
    let b = process("rustc");
    assert_eq!(b.get_program(), "rustc");
    assert!(b.get_args().is_empty());
    assert!(b.get_envs().is_empty());
    assert_eq!(b.get_cwd(), None);
    assert!(b.get_jobserver().is_none());
}

#[test]
fn args_append_in_call_order() {
    let mut b = process("rustc");
    b.arg("a").args(&["b", "c"]).arg("d").args(&[]);
    assert_eq!(args_of(&b), vec!["a", "b", "c", "d"]);
}

#[test]
fn args_replace_discards_earlier_arguments() {
    let mut b = process("rustc");
    b.arg("a").args(&["b", "c"]);
    b.args_replace(&["x", "y"]);
    assert_eq!(args_of(&b), vec!["x", "y"]);
    b.arg("z");
    assert_eq!(args_of(&b), vec!["x", "y", "z"]);
    b.args_replace(&[]);
    assert!(b.get_args().is_empty());
}

#[test]
fn program_and_cwd_are_set() {
    let mut b = process("rustc");
    b.program("cargo").cwd("/tmp/work");
    assert_eq!(b.get_program(), "cargo");
    assert_eq!(b.get_cwd(), Some("/tmp/work"));
}

#[test]
fn env_lookup_prefers_overlay() {
    let mut b = process("rustc");
    b.env("X", "1");
    assert_eq!(b.get_env("X", Some("amb".to_string())), Some("1".to_string()));
    assert_eq!(b.get_env("Y", Some("amb".to_string())), Some("amb".to_string()));
    assert_eq!(b.get_env("Y", None), None);
}

#[test]
fn env_last_write_wins_and_keys_stay_unique() {
    let mut b = process("rustc");
    b.env("X", "1").env("Y", "2").env("X", "3");
    assert_eq!(b.get_env("X", None), Some("3".to_string()));
    let envs = b.get_envs();
    assert_eq!(envs.len(), 2);
    assert_eq!(envs[0], ("X".to_string(), Some("3".to_string())));
    assert_eq!(envs[1], ("Y".to_string(), Some("2".to_string())));
}

#[test]
fn env_remove_after_env_hides_variable() {
    let mut b = process("rustc");
    b.env("X", "v");
    b.env_remove("X");
    assert_eq!(b.get_env("X", None), None);
    assert_eq!(b.get_env("X", Some("ambient".to_string())), None);
    assert_eq!(b.get_envs()[0], ("X".to_string(), None));
}

#[test]
fn env_remove_overrides_inherited_value() {
    let mut b = process("rustc");
    b.env_remove("HOME");
    assert_eq!(b.get_env("HOME", Some("/root".to_string())), None);
}

#[test]
fn wrapped_with_sccache() {
    let mut b = process("rustc");
    b.arg("a");
    let w = b.wrapped(Some("sccache"));
    assert_eq!(w.get_program(), "sccache");
    assert_eq!(args_of(&w), vec!["rustc", "a"]);
}

#[test]
fn wrapped_with_none_or_empty_is_unchanged() {
    let mut b = process("rustc");
    b.arg("a");
    let w = b.wrapped(None);
    assert_eq!(w.get_program(), "rustc");
    assert_eq!(args_of(&w), vec!["a"]);
    let w = w.wrapped(Some(""));
    assert_eq!(w.get_program(), "rustc");
    assert_eq!(args_of(&w), vec!["a"]);
}

#[test]
fn inherit_jobserver_keeps_a_handle() {
    let client = jobserver::Client::new(2).unwrap();
    let mut b = process("rustc");
    b.inherit_jobserver(&client);
    assert!(b.get_jobserver().is_some());
}

/// Splits a line the way a POSIX shell splits single-quoted and
/// backslash-escaped words.
fn shell_split(s: &str) -> Vec<String> {
    let mut words = Vec::new();
    let mut cur = String::new();
    let mut in_word = false;
    let mut chars = s.chars();
    while let Some(c) = chars.next() {
        match c {
            '\'' => {
                in_word = true;
                for q in chars.by_ref() {
                    if q == '\'' {
                        break;
                    }
                    cur.push(q);
                }
            }
            '\\' => {
                in_word = true;
                if let Some(n) = chars.next() {
                    cur.push(n);
                }
            }
            ' ' => {
                if in_word {
                    words.push(std::mem::take(&mut cur));
                    in_word = false;
                }
            }
            _ => {
                in_word = true;
                cur.push(c);
            }
        }
    }
    if in_word {
        words.push(cur);
    }
    words
}

#[test]
fn render_quotes_argument_with_space() {
    let mut b = process("rustc");
    b.arg("foo bar");
    let s = b.to_string();
    assert_eq!(s, "`rustc 'foo bar'`");
    let inner = &s[1..s.len() - 1];
    assert_eq!(shell_split(inner), vec!["rustc", "foo bar"]);
}

#[test]
fn render_escapes_quote_and_bang() {
    let mut b = process("echo");
    b.arg("it's!").arg("plain-word_1.0");
    let s = b.to_string();
    assert_eq!(s, "`echo 'it'\\''s'\\!'' plain-word_1.0`");
    let inner = &s[1..s.len() - 1];
    assert_eq!(shell_split(inner), vec!["echo", "it's!", "plain-word_1.0"]);
}

#[test]
fn render_empty_argument_is_quoted() {
    let mut b = process("echo");
    b.arg("");
    assert_eq!(b.to_string(), "`echo ''`");
}

#[test]
fn render_shows_env_only_when_enabled() {
    let mut b = process("rustc");
    b.env("A", "1").env_remove("B").env("C", "x y").arg("-v");
    assert_eq!(b.to_string(), "`rustc -v`");
    b.display_env_vars();
    assert_eq!(b.to_string(), "`A=1 C='x y' rustc -v`");
}

#[test]
fn render_cmd_style() {
    let mut b = process("rustc");
    b.env("A", "1").arg("foo bar").arg("plain");
    b.display_env_vars();
    assert_eq!(b.render(ShellStyle::Cmd), "`set A=1&& rustc \"foo bar\" plain`");
}

#[test]
fn render_lists_env_sorted_by_name() {
    let mut b = process("cc");
    b.env("B", "2").env("A", "x y").env_remove("C").display_env_vars();
    assert_eq!(b.to_string(), "`A='x y' B=2 cc`");
    let names: Vec<String> = b.get_envs().iter().map(|e| e.0.clone()).collect();
    assert_eq!(names, vec!["A", "B", "C"]);
}

#[test]
fn env_names_are_ordered_by_code_point() {
    let mut b = process("cc");
    b.env("path", "1").env("PATH", "2").env("Z", "3").env("PA", "4").env("é", "5").env("PATH", "6");
    let names: Vec<String> = b.get_envs().iter().map(|e| e.0.clone()).collect();
    assert_eq!(names, vec!["PA", "PATH", "Z", "path", "é"]);
    assert_eq!(b.get_env("PATH", None), Some("6".to_string()));
}

#[test]
fn clone_keeps_every_field() {
    let mut b = process("cc");
    b.arg("-c").env("B", "1").env_remove("A").cwd("/w").display_env_vars();
    let mut c = b.clone();
    assert_eq!(c.get_program(), "cc");
    assert_eq!(args_of(&c), vec!["-c"]);
    assert_eq!(c.get_cwd(), Some("/w"));
    assert_eq!(c.to_string(), b.to_string());
    c.env("C", "3");
    assert_eq!(c.get_env("B", None), Some("1".to_string()));
    assert_eq!(b.get_env("C", None), None);
}

#[test]
fn render_cmd_style_backslashes_and_quotes() {
    let mut b = process("tool");
    b.arg("--features=\"default\"").arg("\\path\\to\\my documents\\").arg("");
    assert_eq!(
        b.render(ShellStyle::Cmd),
        "`tool \"--features=\\\"default\\\"\" \"\\path\\to\\my documents\\\\\" \"\"`"
    );
}
