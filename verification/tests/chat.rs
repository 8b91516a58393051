use projects_lib::chat::{history_file_name, history_line, reply_or_error, SessionTable};

#[test]
fn replies() {
    assert_eq!(reply_or_error(Some("Arr!".to_string())), "Arr!");
    assert_eq!(reply_or_error(None), "Error generating response");
}

#[test]
fn file_names_and_lines() {
    assert_eq!(history_file_name("ann"), "ann.txt");
    assert_eq!(history_file_name(""), ".txt");
    assert_eq!(history_line("UserMessage", "hi"), "UserMessage: hi");
}

#[test]
fn table_read_after_write() {
    let mut t: SessionTable<u32> = SessionTable::new();
    assert!(!t.contains(&"ann".to_string()));
    t.insert("ann".to_string(), 1);
    t.insert("bob".to_string(), 2);
    t.insert("ann".to_string(), 3);
    assert_eq!(t.len(), 2);
    assert_eq!(t.get(&"ann".to_string()), Some(&3));
    assert_eq!(t.get(&"bob".to_string()), Some(&2));
    assert_eq!(t.take(&"ann".to_string()), Some(3));
    assert_eq!(t.take(&"ann".to_string()), None);
    assert_eq!(t.len(), 1);
}
