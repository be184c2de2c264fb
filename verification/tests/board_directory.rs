use board_broker::directory::BoardDirectory;

#[test]
fn unknown_name_has_no_url() {
    let directory = BoardDirectory::new();
    assert_eq!(directory.lookup(&String::from("general")), None);
}

#[test]
fn recorded_url_is_returned() {
    let mut directory = BoardDirectory::new();
    let name = String::from("general");
    let url = String::from("/boards/general");
    directory.record(&name, &url);
    assert_eq!(directory.lookup(&name), Some(url));
}

#[test]
fn removed_name_is_forgotten() {
    let mut directory = BoardDirectory::new();
    let name = String::from("general");
    directory.record(&name, &String::from("/boards/general"));
    directory.remove(&name);
    assert_eq!(directory.lookup(&name), None);
}

#[test]
fn other_names_survive_a_removal() {
    let mut directory = BoardDirectory::new();
    directory.record(&String::from("a"), &String::from("/boards/a"));
    directory.record(&String::from("b"), &String::from("/boards/b"));
    directory.remove(&String::from("a"));
    assert_eq!(directory.lookup(&String::from("b")), Some(String::from("/boards/b")));
}
