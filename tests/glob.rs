use tarmac::glob::get_non_pattern_prefix;

#[test]
fn simple_prefix() {
    assert_eq!(get_non_pattern_prefix("a/b/**/*.png"), String::from("a/b"));
}

#[test]
fn prefix_only() {
    assert_eq!(get_non_pattern_prefix("a/**/b/*.png"), String::from("a"));
}

#[test]
fn no_prefix() {
    assert_eq!(get_non_pattern_prefix("**/b/*.png"), String::from(""));
}

#[test]
fn whole_path() {
    assert_eq!(get_non_pattern_prefix("a/b/foo.png"), String::from("a/b/foo.png"));
}

#[test]
fn root_is_kept_before_a_pattern() {
    assert_eq!(get_non_pattern_prefix("/**/*.png"), String::from("/"));
    assert_eq!(get_non_pattern_prefix("/assets/*.png"), String::from("/assets"));
}

#[test]
fn every_pattern_character_stops_the_prefix() {
    assert_eq!(get_non_pattern_prefix("a/b?/c"), String::from("a"));
    assert_eq!(get_non_pattern_prefix("a/{x,y}/c"), String::from("a"));
    assert_eq!(get_non_pattern_prefix("a/b/[ab].png"), String::from("a/b"));
    assert_eq!(get_non_pattern_prefix(""), String::from(""));
}

#[test]
fn separators_are_kept_as_written() {
    assert_eq!(get_non_pattern_prefix("a//b/*.png"), String::from("a//b"));
    assert_eq!(get_non_pattern_prefix("a/b/"), String::from("a/b/"));
}
