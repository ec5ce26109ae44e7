use mikke::config::{config_path, contract, data_dir, expand, Config};

#[test]
fn expand_replaces_the_tilde() {
    assert_eq!(expand("~/Documents", "/home/x"), "/home/x/Documents");
    assert_eq!(expand("/etc/hosts", "/home/x"), "/etc/hosts");
    assert_eq!(expand("~user/a", "/home/x"), "~user/a");
}

#[test]
fn contract_writes_the_tilde() {
    assert_eq!(contract("/home/x/Documents", "/home/x"), "~/Documents");
    assert_eq!(contract("/srv/data", "/home/x"), "/srv/data");
    assert_eq!(contract("/home/xavier", "/home/x"), "/home/xavier");
}

#[test]
fn add_root_is_deduplicated() {
    let mut c = Config::new();
    assert!(c.add_root("/home/x/Documents", "/home/x"));
    assert!(!c.add_root("/home/x/Documents", "/home/x"));
    assert!(!c.add_root("/home/x/Documents/", "/home/x"));
    assert_eq!(c.roots, vec!["~/Documents".to_string()]);
}

#[test]
fn add_root_keeps_the_others() {
    let mut c = Config::new();
    assert!(c.add_root("/srv/a", "/home/x"));
    assert!(c.add_root("/home/x/b", "/home/x"));
    assert_eq!(c.roots, vec!["/srv/a".to_string(), "~/b".to_string()]);
    assert!(c.exclude.is_empty());
}

#[test]
fn root_and_exclude_paths_are_expanded() {
    let mut c = Config::new();
    c.roots.push("~/notes".to_string());
    c.roots.push("/data".to_string());
    c.exclude.push("~/notes/private".to_string());
    assert_eq!(c.root_paths("/home/x"), vec!["/home/x/notes".to_string(), "/data".to_string()]);
    assert_eq!(c.exclude_paths("/home/x"), vec!["/home/x/notes/private".to_string()]);
}

#[test]
fn config_path_order_of_precedence() {
    assert_eq!(config_path(Some("/tmp/c.toml"), Some("/xdg"), "/home/x"), "/tmp/c.toml");
    assert_eq!(config_path(None, Some("/xdg"), "/home/x"), "/xdg/mikke/config.toml");
    assert_eq!(config_path(None, None, "/home/x"), "/home/x/.config/mikke/config.toml");
}

#[test]
fn data_dir_order_of_precedence() {
    assert_eq!(data_dir(Some("/tmp/d"), Some("/xdg"), "/home/x"), "/tmp/d");
    assert_eq!(data_dir(None, Some("/xdg"), "/home/x"), "/xdg/mikke");
    assert_eq!(data_dir(None, None, "/home/x"), "/home/x/.local/share/mikke");
}

#[test]
fn expand_of_contract_gives_the_path_back() {
    for p in ["/home/x/a/b", "/srv/c", "/home/x"] {
        let c = contract(p, "/home/x");
        let e = expand(&c, "/home/x");
        assert_eq!(std::path::Path::new(&e), std::path::Path::new(p));
    }
}

#[test]
fn config_default_is_empty() {
    let c = Config::default();
    assert!(c.roots.is_empty() && c.exclude.is_empty());
}
