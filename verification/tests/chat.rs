use coursework::chat::{history_file_name, history_without_prompt, reply_or_apology, reply_or_error, Cache};

#[test]
fn file_name_of_a_user() {
    assert_eq!(history_file_name(&"alice".to_string()), "alice.txt");
    assert_eq!(history_file_name(&String::new()), ".txt");
}

#[test]
fn replies_and_apologies() {
    assert_eq!(reply_or_apology(Some("Arr!".to_string())), "Arr!");
    assert_eq!(reply_or_apology(None), "Failed to respond, sorry!");
    assert_eq!(reply_or_error(Some("Ahoy".to_string())), "Ahoy");
    assert_eq!(reply_or_error(None), "Error");
}

#[test]
fn history_drops_the_system_prompt() {
    let msgs = vec!["be a pirate".to_string(), "hi".to_string(), "Arr, hi".to_string()];
    assert_eq!(history_without_prompt(&msgs), vec!["hi".to_string(), "Arr, hi".to_string()]);
    assert_eq!(history_without_prompt(&vec!["only".to_string()]), Vec::<String>::new());
    assert_eq!(history_without_prompt(&Vec::new()), Vec::<String>::new());
}

#[test]
fn cache_reads_back_what_was_written() {
    let mut c: Cache<u32> = Cache::new(3);
    assert_eq!(c.get_chat(&"a".to_string()), None);
    c.insert_chat("a".to_string(), 1);
    assert_eq!(c.get_chat(&"a".to_string()), Some(&1));
    c.insert_chat("a".to_string(), 2);
    assert_eq!(c.get_chat(&"a".to_string()), Some(&2));
    assert_eq!(c.len(), 1);
}

#[test]
fn cache_drops_the_least_recently_inserted_user() {
    let mut c: Cache<u32> = Cache::new(3);
    c.insert_chat("a".to_string(), 1);
    c.insert_chat("b".to_string(), 2);
    c.insert_chat("c".to_string(), 3);
    c.insert_chat("a".to_string(), 4);
    c.insert_chat("d".to_string(), 5);
    assert_eq!(c.len(), 3);
    assert_eq!(c.get_chat(&"b".to_string()), None);
    assert_eq!(c.get_chat(&"a".to_string()), Some(&4));
    assert_eq!(c.get_chat(&"c".to_string()), Some(&3));
    assert_eq!(c.get_chat(&"d".to_string()), Some(&5));
}

#[test]
fn cache_take_removes_the_user() {
    let mut c: Cache<u32> = Cache::new(2);
    c.insert_chat("a".to_string(), 1);
    assert_eq!(c.take_chat(&"a".to_string()), Some(1));
    assert_eq!(c.take_chat(&"a".to_string()), None);
    assert_eq!(c.len(), 0);
}
