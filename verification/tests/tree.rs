use translation_sync::flavor::{Flavor, KEY_GROUP, LARAVEL_PATTERN};
use translation_sync::error::SyncError;
use translation_sync::tree::{
    check_root, find_localization_dir, has_extension, is_dictionary_file, is_localization_dir,
    is_source_file, TreeEntry, MAX_DEPTH,
};

fn entry(name: &str, is_dir: bool, depth: usize) -> TreeEntry {
    TreeEntry { name: name.to_string(), is_dir, depth }
}

#[test]
fn missing_root_is_refused() {
    assert!(matches!(check_root(false, false), Err(SyncError::MissingRoot)));
    assert!(matches!(check_root(false, true), Err(SyncError::MissingRoot)));
    assert_eq!(check_root(false, false).unwrap_err().message(), "Directory does not exist");
}

#[test]
fn root_that_is_a_file_is_refused() {
    assert!(matches!(check_root(true, false), Err(SyncError::NotADirectory)));
    assert_eq!(check_root(true, false).unwrap_err().message(), "Path is not a directory");
}

#[test]
fn root_that_is_a_directory_is_accepted() {
    assert!(check_root(true, true).is_ok());
}

#[test]
fn extension_is_what_follows_the_last_dot() {
    assert!(has_extension("en.json", "json"));
    assert!(has_extension("test.blade.php", "php"));
    assert!(!has_extension("test.blade.php", "blade"));
    assert!(!has_extension("test.blade.php", "blade.php"));
    assert!(has_extension("..json", "json"));
    assert!(has_extension("a.", ""));
    assert!(has_extension("日本.json", "json"));
}

#[test]
fn some_names_have_no_extension() {
    assert!(!has_extension("json", "json"));
    assert!(!has_extension(".json", "json"));
    assert!(!has_extension("", ""));
    assert!(!has_extension("..", ""));
    assert!(!has_extension("name", ""));
    assert!(!has_extension(".hidden", "hidden"));
}

#[test]
fn extension_must_match_wholly() {
    assert!(!has_extension("en.json", "jso"));
    assert!(!has_extension("en.json", "son"));
    assert!(!has_extension("en.jsonl", "json"));
    assert!(!has_extension("en.JSON", "json"));
    assert!(!has_extension("en.json~", "json"));
}

#[test]
fn dictionary_files_end_in_json() {
    assert!(is_dictionary_file("en.json", false));
    assert!(is_dictionary_file("fr.json", false));
    assert!(!is_dictionary_file("en.json", true));
    assert!(!is_dictionary_file("en.yaml", false));
    assert!(!is_dictionary_file(".json", false));
}

#[test]
fn source_files_have_the_extension_of_the_flavor() {
    assert!(is_source_file(Flavor::Laravel, &entry("test.blade.php", false, 1)));
    assert!(is_source_file(Flavor::Laravel, &entry("index.php", false, MAX_DEPTH)));
    assert!(!is_source_file(Flavor::Laravel, &entry("index.php", false, MAX_DEPTH + 1)));
    assert!(!is_source_file(Flavor::Laravel, &entry("index.php", true, 1)));
    assert!(!is_source_file(Flavor::Laravel, &entry("index.html", false, 1)));
    assert!(!is_source_file(Flavor::Laravel, &entry("php", false, 1)));
}

#[test]
fn localization_dir_is_a_directory_named_lang() {
    assert!(is_localization_dir(&entry("lang", true, 0)));
    assert!(is_localization_dir(&entry("lang", true, 10)));
    assert!(!is_localization_dir(&entry("lang", true, 11)));
    assert!(!is_localization_dir(&entry("lang", false, 1)));
    assert!(!is_localization_dir(&entry("Lang", true, 1)));
    assert!(!is_localization_dir(&entry("lang.d", true, 1)));
    assert!(!is_localization_dir(&entry("language", true, 1)));
}

#[test]
fn first_localization_dir_is_picked() {
    let entries = vec![
        entry("project", true, 0),
        entry("lang", false, 1),
        entry("resources", true, 1),
        entry("lang", true, 2),
        entry("lang", true, 1),
    ];
    assert_eq!(find_localization_dir(&entries), Some(3));
}

#[test]
fn tree_without_lang_has_no_localization_dir() {
    let entries =
        vec![entry("project", true, 0), entry("src", true, 1), entry("test.blade.php", false, 2)];
    assert_eq!(find_localization_dir(&entries), None);
    assert_eq!(find_localization_dir(&Vec::new()), None);
}

#[test]
fn search_goes_ten_levels_deep() {
    assert_eq!(MAX_DEPTH, 10);
}

#[test]
fn laravel_is_the_flavor_by_default() {
    assert_eq!(Flavor::default(), Flavor::Laravel);
    assert_eq!(Flavor::from_name("laravel"), Some(Flavor::Laravel));
    assert_eq!(Flavor::from_name("Laravel"), None);
    assert_eq!(Flavor::from_name(""), None);
    assert_eq!(Flavor::Laravel.name(), "laravel");
    assert_eq!(Flavor::Laravel.extension(), "php");
    assert_eq!(Flavor::Laravel.pattern(), LARAVEL_PATTERN);
    assert_eq!(KEY_GROUP, 1);
}

#[test]
fn laravel_pattern_is_that_of_a_translation_call() {
    assert_eq!(
        Flavor::Laravel.pattern(),
        "(?:@lang|\\b__)\\s*\\(\\s*['\"](.*?)['\"]\\s*(?:,.*)?\\s*\\)"
    );
}
