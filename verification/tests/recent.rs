use eui_client::recent::{body, clean, parse, remember, Recent, KEEP};

fn urls(list: &[Recent]) -> Vec<&str> {
    list.iter().map(|r| r.url.as_str()).collect()
}

#[test]
fn the_newest_is_first_and_a_repeat_does_not_appear_twice() {
    let list = parse("a\tA\nb\tB\n");
    assert_eq!(list.len(), 2);
    assert_eq!(list.first().map(|r| r.url.as_str()), Some("a"));

    // What `remember` does to a list, without touching a file.
    let list = remember(&list, "b", "B");
    assert_eq!(urls(&list), ["b", "a"]);
}

#[test]
fn a_line_that_does_not_parse_costs_only_itself() {
    let list = parse("good\tGood\nrubbish-with-no-tab\n\tnameless\nalso\tFine\n");
    assert_eq!(urls(&list), ["good", "also"]);
}

#[test]
fn it_holds_ten() {
    let text: String = (0..40).map(|i| format!("u{i}\tn{i}\n")).collect();
    assert_eq!(parse(&text).len(), KEEP);
}

#[test]
fn a_tab_in_a_name_cannot_forge_a_second_entry() {
    assert_eq!(clean("we\tird\nname"), "weirdname");
}

#[test]
fn fields_are_trimmed_and_a_crlf_line_reads_the_same() {
    let list = parse("  one \t First Name \r\ntwo\tSecond\tand\ttabs\n");
    assert_eq!(list.len(), 2);
    assert_eq!(list[0].url, "one");
    assert_eq!(list[0].name, "First Name");
    assert_eq!(list[1].url, "two");
    assert_eq!(list[1].name, "Second\tand\ttabs");
}

#[test]
fn remembering_puts_it_first_once_and_keeps_ten() {
    let text: String = (0..10).map(|i| format!("u{i}\tn{i}\n")).collect();
    let list = parse(&text);
    let list = remember(&list, "u5", "again");
    assert_eq!(list.len(), KEEP);
    assert_eq!(list[0].url, "u5");
    assert_eq!(list[0].name, "again");
    assert_eq!(list.iter().filter(|r| r.url == "u5").count(), 1);
    let list = remember(&list, "new", "New");
    assert_eq!(list.len(), KEEP);
    assert_eq!(list[0].url, "new");
    assert_eq!(urls(&list)[1], "u5");
    // The oldest fell off the end.
    assert!(!urls(&list).contains(&"u9"));
}

#[test]
fn the_body_is_one_clean_line_each_and_reads_back() {
    let list = parse("a\tA\nb\tB\n");
    let list = remember(&list, "c\td", "C\nD");
    let text = body(&list);
    assert_eq!(text, "cd\tCD\na\tA\nb\tB\n");
    let again = parse(&text);
    assert_eq!(urls(&again), ["cd", "a", "b"]);
}

#[test]
fn an_empty_file_is_an_empty_list() {
    assert!(parse("").is_empty());
    assert!(parse("\n\n").is_empty());
}
