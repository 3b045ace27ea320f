use any2cast::config::{ConfigStore, MyConfig, get_config, get_config_opt, set_config};
use any2cast::dir::{Directory, DirectoryError, EntryKind, FsEntry};
use any2cast::site::{RootEntry, Site, resolve_download_path};

fn file(name: &str) -> FsEntry {
    FsEntry { name: name.to_string(), kind: EntryKind::File }
}

fn entry(name: &str, kind: EntryKind) -> FsEntry {
    FsEntry { name: name.to_string(), kind }
}

#[test]
fn dir_test_new() {
    let path = "/tmp/a/b/c";
    let directory = Directory::new(path).expect("failed to parse path");
    assert_eq!(directory.path, path);
    assert_eq!(directory.name, "c");
}

#[test]
fn test_analyze() {
    let path = "./example/21st_century_movie";
    let mut directory = Directory::new(path).expect("failed to parse path");
    assert_eq!(directory.path, path);
    assert_eq!(directory.name, "21st_century_movie");

    let listing = vec![file("file1.mp3")];
    directory.analyze(&listing).expect("failed to analyze");
    assert_eq!(directory.num_of_episodes(), 1);
}

#[test]
fn test_to_rss_item() {
    let path = "./example/21st_century_movie";
    let mut directory = Directory::new(path).expect("failed to parse path");
    assert_eq!(directory.path, path);
    assert_eq!(directory.name, "21st_century_movie");

    let item = directory.to_rss_item("file1.mp3").expect("failed to convert to item");
    assert_eq!(item.title, "file1".to_string());

    directory.add_item(&item);

    assert_eq!(directory.num_of_episodes(), 1);
}

#[test]
fn test_to_rss_xml() {
    let path = "./example/21st_century_movie";
    let mut directory = Directory::new(path).expect("failed to parse path");

    assert_eq!(directory.path, path);
    assert_eq!(directory.name, "21st_century_movie");

    let item = directory.to_rss_item("file1.mp3").expect("failed to convert to item");
    assert_eq!(item.title, "file1".to_string());

    directory.add_item(&item);

    assert_eq!(directory.num_of_episodes(), 1);

    let output = directory.to_rss_xml("http", "localhost:8080").expect("failed to generate xml");
    println!("output: {}", output);
}

#[test]
fn site_test_new() {
    let path = "/tmp/a/b/c";
    let site = Site::new(path.to_string()).expect("failed to parse path");
    assert_eq!(site.path, path);
    assert_eq!(site.name, "c");
}

#[test]
fn scan_keeps_only_audio() {
    let mut d = Directory::new("shows/mixed").unwrap();
    let listing = vec![
        file("a.mp3"),
        file("b.mp3"),
        file("notes.txt"),
        file("noext"),
        file(".mp3"),
        entry("sub", EntryKind::Dir),
        entry("dev", EntryKind::Other),
        entry("odd", EntryKind::Unknown),
    ];
    d.analyze(&listing).unwrap();
    assert_eq!(d.num_of_episodes(), 2);
    assert_eq!(d.items[0].title, "a");
    assert_eq!(d.items[1].title, "b");
}

#[test]
fn scan_sorts_names_whatever_the_listing_order() {
    let mut d1 = Directory::new("shows/s").unwrap();
    d1.analyze(&vec![file("b.mp3"), file("c.mp3"), file("a.mp3")]).unwrap();
    let mut d2 = Directory::new("shows/s").unwrap();
    d2.analyze(&vec![file("c.mp3"), file("a.mp3"), file("b.mp3")]).unwrap();
    let names1: Vec<String> = d1.items.iter().map(|e| e.file_name.clone()).collect();
    let names2: Vec<String> = d2.items.iter().map(|e| e.file_name.clone()).collect();
    assert_eq!(names1, vec!["a.mp3", "b.mp3", "c.mp3"]);
    assert_eq!(names1, names2);
}

#[test]
fn scan_is_order_idempotent() {
    let listing = vec![file("x.mp3"), file("y.mp3")];
    let mut d1 = Directory::new("shows/s").unwrap();
    d1.analyze(&listing).unwrap();
    let mut d2 = Directory::new("shows/s").unwrap();
    d2.analyze(&listing).unwrap();
    assert_eq!(d1.num_of_episodes(), d2.num_of_episodes());
    for (e1, e2) in d1.items.iter().zip(d2.items.iter()) {
        assert_eq!(e1.title, e2.title);
        assert_eq!(e1.file_name, e2.file_name);
        assert_eq!(e1.link, e2.link);
    }
}

#[test]
fn invalid_file_name_is_rejected() {
    let d = Directory::new("shows/s").unwrap();
    match d.to_rss_item("") {
        Err(e) => assert_eq!(e, DirectoryError::InvalidFilename),
        Ok(_) => panic!("an empty file name must be rejected"),
    }
}

#[test]
fn daily_show_feed_embeds_absolute_links() {
    let mut d = Directory::new("daily_show").unwrap();
    d.analyze(&vec![file("b.mp3"), file("a.mp3"), file("notes.txt")]).unwrap();
    let titles: Vec<String> = d.items.iter().map(|e| e.title.clone()).collect();
    assert_eq!(titles, vec!["a", "b"]);

    let xml = d.to_rss_xml("http", "localhost:8080").unwrap();
    assert!(xml.contains("http://localhost:8080/p/daily_show/a.mp3"));
    assert!(xml.contains("http://localhost:8080/p/daily_show/b.mp3"));

    let channel = rss::Channel::read_from(xml.as_bytes()).expect("feed must parse");
    assert_eq!(channel.title(), "daily_show");
    assert_eq!(channel.link(), "http://localhost:8080/p/daily_show");
    assert_eq!(channel.items().len(), 2);
    assert_eq!(channel.items()[0].title(), Some("a"));
    assert_eq!(
        channel.items()[0].link(),
        Some("http://localhost:8080/p/daily_show/a.mp3")
    );
    assert_eq!(
        channel.items()[0].guid().map(|g| g.value()),
        Some("http://localhost:8080/p/daily_show/a.mp3")
    );
    let enc = channel.items()[0].enclosure().expect("enclosure");
    assert_eq!(enc.url(), "http://localhost:8080/p/daily_show/a.mp3");
    assert_eq!(enc.length(), "123");
    assert_eq!(enc.mime_type(), "audio/mpeg");
}

#[test]
fn empty_show_renders_a_valid_empty_feed() {
    let d = Directory::new("shows/empty").unwrap();
    let xml = d.to_rss_xml("http", "localhost:8080").unwrap();
    let channel = rss::Channel::read_from(xml.as_bytes()).expect("feed must parse");
    assert_eq!(channel.title(), "empty");
    assert_eq!(channel.items().len(), 0);
}

fn sample_site() -> Site {
    let mut site = Site::new("/srv/podcasts".to_string()).unwrap();
    let listing = vec![
        RootEntry {
            entry: entry("zeta", EntryKind::Dir),
            children: vec![file("z.mp3")],
        },
        RootEntry {
            entry: entry("alpha", EntryKind::Dir),
            children: vec![],
        },
        RootEntry { entry: file("readme.md"), children: vec![] },
        RootEntry {
            entry: entry(".hidden", EntryKind::Dir),
            children: vec![file("h.mp3")],
        },
    ];
    site.detect_directories(&listing).unwrap();
    site
}

#[test]
fn discovery_sorts_shows_and_skips_plain_files() {
    let site = sample_site();
    let names: Vec<String> = site.dirs.iter().map(|d| d.name.clone()).collect();
    assert_eq!(names, vec!["alpha", "zeta"]);
    let zeta = site.get_directory("zeta").expect("zeta exists");
    assert_eq!(zeta.num_of_episodes(), 1);
    assert_eq!(zeta.items[0].title, "z");
    assert_eq!(zeta.path, "/srv/podcasts/zeta");
}

#[test]
fn get_show_of_unknown_name_is_absent_not_an_error() {
    let site = sample_site();
    assert!(site.get_directory("nonexistent").is_none());
    assert!(site.get_directory("readme.md").is_none());
    assert!(site.get_directory(".hidden").is_none());
}

#[test]
fn index_renders_once_and_is_served_from_cache() {
    let mut site = sample_site();
    site.prepare_static_files().expect("template must compile");
    let first = site.to_html().expect("render must succeed");
    let second = site.to_html().expect("cached render must succeed");
    assert_eq!(first, second);
    assert!(first.contains("podcasts"));
    assert!(first.contains("alpha"));
    assert!(first.contains("/p/zeta"));
}

#[test]
fn stem_keeps_inner_dots_and_hidden_names_have_no_extension() {
    let mut d = Directory::new("shows/s").unwrap();
    d.analyze(&vec![file("a.b.mp3"), file(".hidden.mp3"), file("plain")]).unwrap();
    let titles: Vec<String> = d.items.iter().map(|e| e.title.clone()).collect();
    assert_eq!(titles, vec![".hidden", "a.b"]);
}

#[test]
fn episodes_carry_a_publication_date() {
    let mut d = Directory::new("shows/s").unwrap();
    d.analyze(&vec![file("a.mp3")]).unwrap();
    assert!(!d.items[0].pub_date.is_empty());
    let xml = d.to_rss_xml("http", "localhost:8080").unwrap();
    let channel = rss::Channel::read_from(xml.as_bytes()).unwrap();
    assert!(channel.items()[0].pub_date().is_some());
}

#[test]
fn download_path_is_a_pure_join() {
    assert_eq!(resolve_download_path("daily_show", "a.mp3"), "daily_show/a.mp3");
}

#[test]
fn config_is_write_once() {
    let mut store = ConfigStore::empty();
    assert!(get_config_opt(&store).is_none());
    set_config(&mut store, MyConfig::new(9000));
    set_config(&mut store, MyConfig::new(1234));
    assert_eq!(get_config(&store).port(), 9000);
    assert_eq!(get_config_opt(&store).unwrap().port(), 9000);
}

#[test]
fn config_defaults() {
    assert_eq!(MyConfig::default_port(), 8080);
    let c: MyConfig = Default::default();
    assert_eq!(c.port(), 8080);
}
