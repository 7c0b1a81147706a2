use prompt::component::{compress_component, Entry};
use prompt::compress::compress;
use prompt::home::{resolve_home, HomeRecord};

fn dirs(names: &[&str]) -> Option<Vec<Entry>> {
    Some(
        names
            .iter()
            .map(|n| Entry {
                name: n.to_string(),
                is_dir: true,
            })
            .collect(),
    )
}

fn record(username: &str, home: &str) -> HomeRecord {
    HomeRecord {
        username: username.to_string(),
        home: home.to_string(),
    }
}

fn alice() -> Option<String> {
    Some("/home/alice".to_string())
}

fn render(
    path: &str,
    own_home: &Option<String>,
    records: &Vec<HomeRecord>,
    listings: &Vec<Option<Vec<Entry>>>,
) -> String {
    let resolved = resolve_home(path, own_home, records).expect("absolute path");
    compress(&resolved, listings)
}

#[test]
fn home_itself_is_tilde() {
    assert_eq!(render("/home/alice", &alice(), &vec![], &vec![]), "~");
}

#[test]
fn home_subdirectories_take_one_letter() {
    let listings = vec![
        dirs(&["include", "bin", "src"]),
        dirs(&["c++", "linux", "asm"]),
        dirs(&["8.2.1", "x86_64"]),
        dirs(&["experimental", "bits", "tr1"]),
    ];
    assert_eq!(
        render(
            "/home/alice/include/c++/8.2.1/experimental/bits",
            &alice(),
            &vec![],
            &listings
        ),
        "~/i/c/8/e/bits"
    );
}

#[test]
fn dotted_component_keeps_two_clusters() {
    let listings = vec![dirs(&[".config", ".local", "src"])];
    assert_eq!(
        render("/home/alice/.config/sway", &alice(), &vec![], &listings),
        "~/.c/sway"
    );
}

#[test]
fn dotted_component_sharing_prefix_grows() {
    let listings = vec![dirs(&[".config", ".cache"])];
    assert_eq!(
        render("/home/alice/.config/sway", &alice(), &vec![], &listings),
        "~/.co/sway"
    );
}

#[test]
fn no_home_match_keeps_root() {
    let listings = vec![
        dirs(&["usr", "var"]),
        dirs(&["local", "bin"]),
        dirs(&["bin", "lib"]),
        dirs(&[".config"]),
        dirs(&[".foo"]),
        dirs(&[".bar"]),
        dirs(&["..baz"]),
    ];
    assert_eq!(
        render(
            "/usr/local/bin/.config/.foo/.bar/..baz/qux",
            &alice(),
            &vec![],
            &listings
        ),
        "/u/l/b/.c/.f/.b/..b/qux"
    );
}

#[test]
fn root_account_home() {
    let records = vec![record("root", "/root"), record("alice", "/home/alice")];
    // The last component is never shortened.
    assert_eq!(
        render("/root/include", &alice(), &records, &vec![]),
        "~root/include"
    );
    let listings = vec![dirs(&["include", ".bashrc"])];
    assert_eq!(
        render("/root/include/gcc", &alice(), &records, &listings),
        "~root/i/gcc"
    );
}

#[test]
fn tie_goes_to_smaller_username() {
    let records = vec![record("bob", "/srv/shared"), record("alice", "/srv/shared")];
    assert_eq!(
        render("/srv/shared/x", &None, &records, &vec![]),
        "~alice/x"
    );
    let records = vec![record("alice", "/srv/shared"), record("bob", "/srv/shared")];
    assert_eq!(
        render("/srv/shared/x", &None, &records, &vec![]),
        "~alice/x"
    );
}

#[test]
fn deeper_home_wins() {
    let records = vec![record("a", "/srv"), record("z", "/srv/deep")];
    assert_eq!(render("/srv/deep/x", &None, &records, &vec![]), "~z/x");
    assert_eq!(render("/srv/other", &None, &records, &vec![]), "~a/other");
}

#[test]
fn own_home_comes_before_records() {
    let records = vec![record("alice", "/home/alice")];
    assert_eq!(render("/home/alice/x", &alice(), &records, &vec![]), "~/x");
}

#[test]
fn relative_home_never_matches() {
    let records = vec![record("x", "home")];
    assert_eq!(render("/home/y", &None, &records, &vec![]), "/home/y");
}

#[test]
fn root_path() {
    assert_eq!(render("/", &None, &vec![], &vec![]), "/");
}

#[test]
fn relative_path_is_refused() {
    assert!(resolve_home("home/alice", &alice(), &vec![]).is_none());
}

#[test]
fn resolved_parts() {
    let r = resolve_home("/home/alice/a/./b//c", &alice(), &vec![]).unwrap();
    assert_eq!(r.display, "~");
    assert_eq!(r.base, vec!["home".to_string(), "alice".to_string()]);
    assert_eq!(
        r.rest,
        vec!["a".to_string(), "b".to_string(), "c".to_string()]
    );
}

#[test]
fn leaf_is_kept() {
    let listings = vec![dirs(&["alpha", "beta"])];
    let out = render("/alpha/some leaf", &None, &vec![], &listings);
    assert_eq!(out, "/a/some leaf");
    assert_eq!(out.rsplit('/').next(), Some("some leaf"));
}

#[test]
fn unreadable_directory_keeps_component() {
    let listings = vec![None, dirs(&["c", "d"])];
    assert_eq!(
        render("/alpha/beta/leaf", &None, &vec![], &listings),
        "/alpha/b/leaf"
    );
    // A level without a listing counts as unreadable.
    assert_eq!(
        render("/alpha/beta/leaf", &None, &vec![], &vec![]),
        "/alpha/beta/leaf"
    );
}

#[test]
fn component_never_grows() {
    for (comp, siblings) in [
        ("x", vec!["xy"]),
        ("doc", vec!["docs", "download"]),
        (".a", vec![".ab"]),
        ("..b", vec![]),
        ("ab", vec!["ab"]),
    ] {
        let listing = dirs(&siblings);
        let out = compress_component(comp, &listing);
        assert!(out.len() <= comp.len());
        assert!(comp.starts_with(out.as_str()));
    }
}

#[test]
fn prefix_of_sibling_is_kept_whole() {
    assert_eq!(compress_component("doc", &dirs(&["docs"])), "doc");
}

#[test]
fn files_are_not_siblings() {
    let listing = Some(vec![
        Entry {
            name: "notes.txt".to_string(),
            is_dir: false,
        },
        Entry {
            name: "nodes".to_string(),
            is_dir: true,
        },
    ]);
    assert_eq!(compress_component("notebooks", &listing), "not");
    let listing = Some(vec![Entry {
        name: "notes.txt".to_string(),
        is_dir: false,
    }]);
    assert_eq!(compress_component("notebooks", &listing), "n");
}

#[test]
fn dot_components_never_collapse_to_dots() {
    assert_eq!(compress_component(".a", &dirs(&[])), ".a");
    assert_eq!(compress_component("..b", &dirs(&[])), "..b");
    assert_eq!(compress_component(".abc", &dirs(&[])), ".a");
    assert_eq!(compress_component("..", &dirs(&[])), "..");
    for comp in [".a", "..b", ".abc", "...", ".x.y", ".", ".."] {
        let out = compress_component(comp, &dirs(&[".q"]));
        if comp != "." && comp != ".." {
            assert!(out != "." && out != "..", "{} gave {}", comp, out);
        }
    }
}

#[test]
fn shortening_twice_is_stable() {
    let siblings = ["docs", "download", "desktop"];
    for comp in ["documents", "dx", ".config", "music"] {
        let once = compress_component(comp, &dirs(&siblings));
        let twice = compress_component(&once, &dirs(&siblings));
        assert_eq!(once, twice);
    }
}
