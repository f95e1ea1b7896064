use merge_config_files::{resolve_config_paths, NameFilter, PathListing};

fn s(x: &str) -> String {
    x.to_string()
}

fn strs(xs: &[&str]) -> Vec<String> {
    xs.iter().map(|x| x.to_string()).collect()
}

#[test]
fn directory_entries_are_sorted() {
    let locations = vec![PathListing::Dir {
        path: s("config"),
        names: strs(&["b.toml", "a.toml"]),
    }];
    let paths = resolve_config_paths(&locations, &NameFilter::Unfiltered);
    assert_eq!(paths, strs(&["config/a.toml", "config/b.toml"]));
}

#[test]
fn directory_order_does_not_matter() {
    let one = vec![PathListing::Dir {
        path: s("config"),
        names: strs(&["b.toml", "a.toml", "c.toml"]),
    }];
    let two = vec![PathListing::Dir {
        path: s("config"),
        names: strs(&["c.toml", "a.toml", "b.toml"]),
    }];
    let first = resolve_config_paths(&one, &NameFilter::Unfiltered);
    let second = resolve_config_paths(&two, &NameFilter::Unfiltered);
    assert_eq!(first, second);
    assert_eq!(first, strs(&["config/a.toml", "config/b.toml", "config/c.toml"]));
}

#[test]
fn keyword_filter_requires_every_keyword() {
    let locations = vec![PathListing::Dir {
        path: s("config"),
        names: strs(&["dev.json", "prod-db.json"]),
    }];
    let filter = NameFilter::Keywords(strs(&["prod"]));
    let paths = resolve_config_paths(&locations, &filter);
    assert_eq!(paths, strs(&["config/prod-db.json"]));
}

#[test]
fn empty_keyword_filter_keeps_all() {
    let locations = vec![PathListing::Dir {
        path: s("config"),
        names: strs(&["dev.json", "prod.json"]),
    }];
    let filter = NameFilter::Keywords(Vec::new());
    let paths = resolve_config_paths(&locations, &filter);
    assert_eq!(paths, strs(&["config/dev.json", "config/prod.json"]));
}

#[test]
fn wildcard_filter_keeps_matching_names() {
    let locations = vec![PathListing::Dir {
        path: s("config"),
        names: strs(&["a.toml", "b.json", "c.toml"]),
    }];
    let filter = NameFilter::Wildcards(strs(&["*.toml"]));
    let paths = resolve_config_paths(&locations, &filter);
    assert_eq!(paths, strs(&["config/a.toml", "config/c.toml"]));
}

#[test]
fn empty_wildcard_filter_keeps_none() {
    let locations = vec![PathListing::Dir {
        path: s("config"),
        names: strs(&["a.toml", "b.json"]),
    }];
    let filter = NameFilter::Wildcards(Vec::new());
    let paths = resolve_config_paths(&locations, &filter);
    assert_eq!(paths, Vec::<String>::new());
}

#[test]
fn invalid_wildcard_pattern_is_skipped() {
    let locations = vec![PathListing::Dir {
        path: s("config"),
        names: strs(&["a.toml", "b.json"]),
    }];
    let filter = NameFilter::Wildcards(strs(&["a\\", "*.json"]));
    let paths = resolve_config_paths(&locations, &filter);
    assert_eq!(paths, strs(&["config/b.json"]));
}

#[test]
fn file_locations_pass_through_unfiltered() {
    let locations = vec![
        PathListing::File(s("zeta.toml")),
        PathListing::Dir { path: s("config"), names: strs(&["b.json", "a.json"]) },
        PathListing::File(s("alpha.yaml")),
    ];
    let filter = NameFilter::Keywords(strs(&["json"]));
    let paths = resolve_config_paths(&locations, &filter);
    assert_eq!(
        paths,
        strs(&["zeta.toml", "config/a.json", "config/b.json", "alpha.yaml"])
    );
}

#[test]
fn cross_location_order_is_kept() {
    let locations = vec![
        PathListing::Dir { path: s("later"), names: strs(&["z.toml"]) },
        PathListing::Dir { path: s("earlier"), names: strs(&["a.toml"]) },
    ];
    let paths = resolve_config_paths(&locations, &NameFilter::Unfiltered);
    assert_eq!(paths, strs(&["later/z.toml", "earlier/a.toml"]));
}
