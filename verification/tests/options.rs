use lifesaver::options::read;

fn arguments(words: &[&str]) -> Vec<String> {
    words.iter().map(|word| word.to_string()).collect()
}

#[test]
fn no_arguments_ask_for_nothing() {
    let read = read(&arguments(&[]));
    assert!(!read.interactive);
    assert!(!read.windowed);
    assert!(read.density_values.is_empty());
    assert!(read.speed_values.is_empty());
}

#[test]
fn flags_have_long_and_short_forms() {
    let long = read(&arguments(&["--interactive", "--windowed"]));
    assert!(long.interactive && long.windowed);
    let short = read(&arguments(&["-w", "-i"]));
    assert!(short.interactive && short.windowed);
    let only_windowed = read(&arguments(&["-w"]));
    assert!(!only_windowed.interactive && only_windowed.windowed);
}

#[test]
fn options_take_the_next_argument() {
    let read = read(&arguments(&["--density", "0.18", "--speed", "12", "--density", "x"]));
    assert_eq!(read.density_values, vec!["0.18".to_string(), "x".to_string()]);
    assert_eq!(read.speed_values, vec!["12".to_string()]);
    assert!(!read.interactive);
}

#[test]
fn an_option_consumes_a_following_flag() {
    let read = read(&arguments(&["--density", "--windowed", "-i"]));
    assert!(!read.windowed);
    assert!(read.interactive);
    assert_eq!(read.density_values, vec!["--windowed".to_string()]);
}

#[test]
fn a_trailing_option_and_unknown_words_are_ignored() {
    let read = read(&arguments(&["extra", "--fast", "--speed"]));
    assert!(!read.interactive && !read.windowed);
    assert!(read.density_values.is_empty());
    assert!(read.speed_values.is_empty());
}
