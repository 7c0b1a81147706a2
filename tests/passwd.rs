use prompt::passwd::parse_passwd;

fn names(contents: &str, min_uid: u64) -> Vec<(String, u64, String)> {
    parse_passwd(contents.as_bytes(), min_uid)
        .into_iter()
        .map(|e| {
            (
                String::from_utf8(e.name).unwrap(),
                e.uid,
                String::from_utf8(e.home).unwrap(),
            )
        })
        .collect()
}

#[test]
fn reads_accounts_in_order() {
    let contents = "root:x:0:0:root:/root:/bin/bash\n\
                    daemon:x:1:1:daemon:/usr/sbin:/usr/sbin/nologin\n\
                    alice:x:1000:1000:Alice,,,:/home/alice:/bin/zsh\n";
    assert_eq!(
        names(contents, 0),
        vec![
            ("root".to_string(), 0, "/root".to_string()),
            ("daemon".to_string(), 1, "/usr/sbin".to_string()),
            ("alice".to_string(), 1000, "/home/alice".to_string()),
        ]
    );
}

#[test]
fn min_uid_filters_system_accounts() {
    let contents = "root:x:0:0:root:/root:/bin/bash\nalice:x:1000:1000::/home/alice:/bin/sh";
    assert_eq!(
        names(contents, 1000),
        vec![("alice".to_string(), 1000, "/home/alice".to_string())]
    );
    assert_eq!(names(contents, 1001), vec![]);
}

#[test]
fn malformed_lines_are_skipped() {
    let contents = "\n\
                    short:x:5\n\
                    toolong:x:5:5::/h:/bin/sh:extra\n\
                    baduid:x:five:5::/h:/bin/sh\n\
                    empty:x::5::/h:/bin/sh\n\
                    huge:x:18446744073709551616:5::/h:/bin/sh\n\
                    max:x:18446744073709551615:5::/m:/bin/sh\n\
                    plus:x:+7:5::/p:/bin/sh\n\
                    sign:x:-7:5::/p:/bin/sh\n";
    assert_eq!(
        names(contents, 0),
        vec![
            ("max".to_string(), u64::MAX, "/m".to_string()),
            ("plus".to_string(), 7, "/p".to_string()),
        ]
    );
}

#[test]
fn empty_file_has_no_accounts() {
    assert_eq!(names("", 0), vec![]);
}
