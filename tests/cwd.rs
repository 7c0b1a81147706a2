use prompt::compressed_cwd;

fn s(x: &str) -> Option<String> {
    Some(x.to_string())
}

#[test]
fn unknown_directory_is_question_mark() {
    assert_eq!(compressed_cwd(&None, &s("/home/alice")), "?");
}

#[test]
fn home_is_tilde() {
    assert_eq!(compressed_cwd(&s("/home/alice"), &s("/home/alice")), "~");
    assert_eq!(compressed_cwd(&s("/home/alice/"), &s("/home/alice")), "~");
}

#[test]
fn inside_home() {
    assert_eq!(
        compressed_cwd(&s("/home/alice/projects/rust"), &s("/home/alice")),
        "~/p/rust"
    );
    assert_eq!(
        compressed_cwd(&s("/home/alice/.config/nvim/lua"), &s("/home/alice")),
        "~/.c/n/lua"
    );
}

#[test]
fn outside_home() {
    assert_eq!(
        compressed_cwd(&s("/usr/local/share"), &s("/home/alice")),
        "/u/l/share"
    );
    assert_eq!(compressed_cwd(&s("/"), &None), "/");
    assert_eq!(compressed_cwd(&s("/etc"), &None), "/etc");
}

#[test]
fn lone_dot_stays_one_cluster() {
    assert_eq!(compressed_cwd(&s("/./x"), &None), "/./x");
}
