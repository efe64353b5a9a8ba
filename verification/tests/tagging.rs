use boundrs::tagging::{TagEntry, Tagging, TaggingToolData};

fn entry(image: &str, tag: &str) -> TagEntry {
    TagEntry { image: image.to_string(), tag: tag.to_string() }
}

#[test]
fn commit_then_repeat_gives_the_tag_twice() {
    let mut t = Tagging::default();
    t.repeat_tags();
    assert!(t.current_tags().is_empty());
    t.set_input("blurry".to_string());
    t.commit_input();
    assert_eq!(t.input(), "");
    t.repeat_tags();
    assert_eq!(t.current_tags(), &vec!["blurry".to_string(), "blurry".to_string()]);
}

#[test]
fn remove_tag_removes_one() {
    let mut t = Tagging::new();
    for tag in ["a", "b", "c"] {
        t.set_input(tag.to_string());
        t.commit_input();
    }
    t.remove_tag(1);
    assert_eq!(t.current_tags(), &vec!["a".to_string(), "c".to_string()]);
}

#[test]
fn load_tags_splits_the_table() {
    let mut t = Tagging::new();
    let records = vec![entry("1.jpg", "x"), entry("2.jpg", "y"), entry("1.jpg", "z"), entry("3.jpg", "w")];
    let others = t.load_tags(records, "1.jpg");
    assert_eq!(t.current_tags(), &vec!["x".to_string(), "z".to_string()]);
    let rest: Vec<(String, String)> = others.into_iter().map(|e| (e.image, e.tag)).collect();
    assert_eq!(rest, vec![("2.jpg".to_string(), "y".to_string()), ("3.jpg".to_string(), "w".to_string())]);
    let none = t.load_tags(vec![], "1.jpg");
    assert!(none.is_empty() && t.current_tags().is_empty());
}

#[test]
fn save_tags_writes_one_row_per_tag() {
    let mut d = TaggingToolData::new();
    d.current_tags = vec!["p".to_string(), "q".to_string()];
    let rows = d.save_tags("5.jpg");
    assert_eq!(rows.len(), 2);
    assert!(rows.iter().all(|r| r.image == "5.jpg"));
    assert_eq!(rows[1].tag, "q");
    d.remove_tag(0);
    assert_eq!(d.current_tags, vec!["q".to_string()]);
}

#[test]
fn saved_tags_are_loaded_back() {
    let mut d = TaggingToolData::new();
    let table = vec![entry("1.jpg", "old"), entry("2.jpg", "y"), entry("3.jpg", "w")];
    let mut others = d.load_tags(table, "1.jpg");
    assert_eq!(d.current_tags, vec!["old".to_string()]);
    d.current_tags = vec!["p".to_string(), "q".to_string()];
    others.extend(d.save_tags("1.jpg"));
    let mut again = TaggingToolData::new();
    let rest = again.load_tags(others, "1.jpg");
    assert_eq!(again.current_tags, vec!["p".to_string(), "q".to_string()]);
    let rest: Vec<(String, String)> = rest.into_iter().map(|e| (e.image, e.tag)).collect();
    assert_eq!(rest, vec![("2.jpg".to_string(), "y".to_string()), ("3.jpg".to_string(), "w".to_string())]);
}
