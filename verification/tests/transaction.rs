use manifest_runner::transaction::{
    alphabet_letter, generate_random_file_id, simulator_arguments, transaction_file_path,
    ALPHABET, EXTENSION, RUN_COMMAND, SIMULATOR,
};

#[test]
fn alphabet_is_the_lowercase_letters() {
    assert_eq!(ALPHABET, "abcdefghijklmnopqrstuvwxyz");
    assert_eq!(ALPHABET.chars().count(), 26);
}

#[test]
fn alphabet_letter_by_index() {
    assert_eq!(alphabet_letter(0), 'a');
    assert_eq!(alphabet_letter(1), 'b');
    assert_eq!(alphabet_letter(12), 'm');
    assert_eq!(alphabet_letter(25), 'z');
}

#[test]
fn file_id_has_the_length_asked_for() {
    for len in [1, 2, 10, 64, 1000] {
        assert_eq!(generate_random_file_id(len).chars().count(), len as usize);
    }
}

#[test]
fn file_id_holds_lowercase_letters_only() {
    for _ in 0..200 {
        let id = generate_random_file_id(10);
        assert_eq!(id.len(), 10);
        assert!(id.chars().all(|c| c.is_ascii_lowercase()));
    }
}

#[test]
fn file_id_of_no_length_is_empty() {
    assert_eq!(generate_random_file_id(0), "");
    assert_eq!(generate_random_file_id(-1), "");
    assert_eq!(generate_random_file_id(i32::MIN), "");
}

#[test]
fn file_ids_differ() {
    let first = generate_random_file_id(32);
    let mut differs = false;
    for _ in 0..8 {
        differs = differs || generate_random_file_id(32) != first;
    }
    assert!(differs);
}

#[test]
fn file_path_joins_directory_id_and_extension() {
    assert_eq!(
        transaction_file_path("/work/___tmp_manifests___", "abcdefghij"),
        "/work/___tmp_manifests___/abcdefghij.rtm"
    );
    assert_eq!(transaction_file_path("", ""), "/.rtm");
}

#[test]
fn simulator_is_told_to_run_the_file() {
    assert_eq!(SIMULATOR, "resim");
    assert_eq!(RUN_COMMAND, "run");
    assert_eq!(EXTENSION, ".rtm");
    assert_eq!(
        simulator_arguments("/work/___tmp_manifests___/abcdefghij.rtm"),
        vec!["run".to_string(), "/work/___tmp_manifests___/abcdefghij.rtm".to_string()]
    );
}
