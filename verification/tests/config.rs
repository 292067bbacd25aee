use wom::config::{
    deepest_root, expand_path, Config, Device, Paths, Profile, Refresh, Root,
};
use wom::path::{
    extension, file_name, is_within, join, normalise, parent, same_path, strip_prefix,
    with_extension,
};

fn root(path: &str, profile: Profile) -> Root {
    Root { path: path.to_string(), profile }
}

#[test]
fn normalise_strips_dots_and_trailing_slash() {
    assert_eq!(normalise("/a/./b/"), "/a/b");
    assert_eq!(normalise("/a/b/../c"), "/a/c");
}

#[test]
fn expand_tilde_uses_home() {
    let home = Some("/home/tester".to_string());
    assert_eq!(expand_path("~/Documents", &home, "/w").unwrap(), "/home/tester/Documents");
    assert_eq!(expand_path("~", &home, "/w").unwrap(), "/home/tester");
}

#[test]
fn expansion_makes_paths_absolute() {
    assert_eq!(expand_path("notes/../x", &None, "/w").unwrap(), "/w/x");
    assert_eq!(expand_path("/a//b/", &None, "/w").unwrap(), "/a/b");
    assert_eq!(expand_path("~other", &None, "/w").unwrap(), "/w/~other");
    assert!(expand_path("~", &None, "/w").is_err());
    assert!(expand_path("~/x", &Some(String::new()), "/w").is_err());
}

#[test]
fn profile_for_prefers_most_specific_root() {
    let cfg = Config {
        roots: vec![
            root("/home/n/projects", Profile::Code),
            root("/home/n/projects/notes", Profile::Content),
        ],
        ..Config::default()
    };
    assert_eq!(cfg.profile_for("/home/n/projects/a/b.c"), Some(Profile::Code));
    assert_eq!(cfg.profile_for("/home/n/projects/notes/x.md"), Some(Profile::Content));
    assert_eq!(cfg.profile_for("/etc/passwd"), None);
}

#[test]
fn the_longest_containing_root_is_the_deepest() {
    let roots = vec!["/a".to_string(), "/a/b".to_string(), "/a/bc".to_string()];
    assert_eq!(deepest_root(&roots, "/a/b/x").unwrap(), "/a/b");
    assert_eq!(deepest_root(&roots, "/a/bcd").unwrap(), "/a");
    assert_eq!(deepest_root(&roots, "/x"), None);
}

#[test]
fn device_gpu_does_not_permit_a_silent_cpu_fallback() {
    assert!(Device::Gpu.wants_gpu());
    assert!(!Device::Gpu.may_fall_back());
    assert!(Device::Auto.wants_gpu());
    assert!(Device::Auto.may_fall_back());
    assert!(!Device::Cpu.wants_gpu());
}

#[test]
fn device_defaults_to_cpu() {
    assert_eq!(Config::default().device, Device::Cpu);
}

#[test]
fn profile_names_read_back() {
    for p in [Profile::Content, Profile::Code, Profile::NameOnly] {
        assert_eq!(Profile::from_str_opt(p.as_str()), Some(p));
    }
    assert_eq!(Profile::from_str_opt("Content"), None);
    assert_eq!(Profile::NameOnly.body_tokens(), 0);
    assert!(Profile::Code.body_tokens() < Profile::Content.body_tokens());
}

#[test]
fn intervals_are_in_seconds() {
    assert_eq!(Refresh::EveryRun.interval_secs(), Some(0));
    assert_eq!(Refresh::Daily.interval_secs(), Some(86_400));
    assert_eq!(Refresh::Weekly.interval_secs(), Some(604_800));
    assert_eq!(Refresh::Manual.interval_secs(), None);
}

#[test]
fn the_similarity_floor_comes_from_the_configuration_or_the_model() {
    let mut cfg = Config::default();
    cfg.min_similarity = Some(0.5f32.to_bits());
    assert_eq!(f32::from_bits(cfg.resolved_min_similarity()), 0.5);
    cfg.min_similarity = None;
    cfg.model = "no-such-model".to_string();
    assert_eq!(f32::from_bits(cfg.resolved_min_similarity()), 0.55);
    cfg.model = wom::embed::DEFAULT_MODEL.to_string();
    assert_eq!(
        cfg.resolved_min_similarity(),
        wom::embed::lookup(wom::embed::DEFAULT_MODEL).unwrap().default_min_similarity
    );
}

#[test]
fn everything_derived_lies_in_the_data_directory() {
    let p = Paths::at("/h");
    for f in p.derived_files() {
        assert!(is_within(&f, p.data_dir()), "{f}");
    }
    assert_eq!(p.derived_files().len(), 5);
    assert!(p.model_dir("m").ends_with("/models/m"));
    assert!(!p.derived_files().contains(&p.config_file()));
}

#[test]
fn derived_files_are_apart_from_what_a_rebuild_keeps() {
    for home in ["/h", "/h/", "", "."] {
        let p = Paths::at(home);
        let mut files = p.derived_files();
        for f in &files {
            assert!(!is_within(f, &p.model_dir("m")));
            assert!(!same_path(f, &p.scan_lock()) && !same_path(f, &p.config_file()));
        }
        files.sort();
        files.dedup();
        assert_eq!(files.len(), 5);
    }
    assert_eq!(
        Paths::at("/h").derived_files(),
        vec![
            "/h/index.db",
            "/h/index.db-wal",
            "/h/index.db-shm",
            "/h/vectors_files.i8",
            "/h/vectors_dirs.i8",
        ]
    );
}

#[test]
fn paths_are_read_by_components() {
    assert_eq!(parent("/a/b/").unwrap(), "/a");
    assert_eq!(parent("/a").unwrap(), "/");
    assert_eq!(parent("/"), None);
    assert_eq!(parent("a").unwrap(), "");
    assert_eq!(file_name("/a/b.txt/").unwrap(), "b.txt");
    assert_eq!(file_name("/a/.."), None);
    assert_eq!(extension("/a/b.tar.gz").unwrap(), "gz");
    assert_eq!(extension("/a/.bashrc"), None);
    assert_eq!(extension("/a/b."), Some(String::new()));
    assert_eq!(with_extension("/m/model.onnx", "part"), "/m/model.part");
    assert_eq!(with_extension("/m/model", "part"), "/m/model.part");
    assert_eq!(join("/a", "b"), "/a/b");
    assert_eq!(join("/a/", "b"), "/a/b");
    assert_eq!(join("/a", "/b"), "/b");
    assert_eq!(strip_prefix("/r/a//b/", "/r").unwrap(), "a//b");
    assert_eq!(strip_prefix("/r", "/r").unwrap(), "");
    assert_eq!(strip_prefix("/rx", "/r"), None);
    assert!(same_path("/a//b/.", "/a/b"));
    assert!(!same_path("a", "/a"));
}

#[test]
fn normalising_goes_no_higher_than_the_root() {
    assert_eq!(normalise("/../../x"), "/x");
    assert_eq!(normalise("a/./../b//c"), "b/c");
    assert_eq!(normalise("/"), "/");
    assert_eq!(normalise(""), "");
}

#[test]
fn the_innermost_root_wins_however_it_is_spelled() {
    let roots = vec!["/a//////b".to_string(), "/a/b/c".to_string(), "/a".to_string()];
    assert_eq!(deepest_root(&roots, "/a/b/c/x").unwrap(), "/a/b/c");
    assert_eq!(deepest_root(&roots, "/a/b/x").unwrap(), "/a//////b");
    let twice = vec!["/a/b/".to_string(), "/a/b".to_string()];
    assert_eq!(deepest_root(&twice, "/a/b/x").unwrap(), "/a/b/");
}
