use rust_audio_api::names::{chars_of, contains_substring, find_device_by_name};

fn labels() -> Vec<String> {
    vec![
        "Speakers (Bluetooth Device)".to_string(),
        "Headset (Bluetooth Device)".to_string(),
        "ÄUDIO Interface".to_string(),
    ]
}

#[test]
fn finds_first_case_insensitive_match() {
    assert_eq!(find_device_by_name(&labels(), "headset"), Some(1));
    assert_eq!(find_device_by_name(&labels(), "HEAD"), Some(1));
    assert_eq!(find_device_by_name(&labels(), "bluetooth"), Some(0));
    assert_eq!(find_device_by_name(&labels(), "äudio"), Some(2));
}

#[test]
fn empty_name_matches_the_first_device() {
    assert_eq!(find_device_by_name(&labels(), ""), Some(0));
}

#[test]
fn no_match_gives_none() {
    assert_eq!(find_device_by_name(&labels(), "microphone"), None);
    assert_eq!(find_device_by_name(&Vec::new(), "headset"), None);
}

#[test]
fn substring_search() {
    let hay = chars_of("abcabd");
    assert!(contains_substring(&hay, &chars_of("abd")));
    assert!(contains_substring(&hay, &chars_of("")));
    assert!(contains_substring(&hay, &chars_of("abcabd")));
    assert!(!contains_substring(&hay, &chars_of("abdx")));
    assert!(!contains_substring(&hay, &chars_of("ac")));
    assert_eq!(chars_of("héllo"), vec!['h', 'é', 'l', 'l', 'o']);
}
