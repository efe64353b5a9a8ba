use boundrs::dataset::{
    contains_any_class, Dataset, DatasetError, DatasetMovement, LabelOnDisk, PendingSearch,
};
use std::collections::HashSet;

fn paths(names: &[&str]) -> Vec<String> {
    names.iter().map(|n| n.to_string()).collect()
}

#[test]
fn label_on_disk_puts_the_label_beside_the_image_name() {
    let p = LabelOnDisk::new("input/shot-1.jpg", "labels");
    assert_eq!(p.img_name(), "shot-1.jpg");
    assert_eq!(p.img_src(), "shot-1.jpg");
    assert_eq!(p.label_name(), "shot-1.txt");
    assert_eq!(p.label_src(), "labels/shot-1.txt");
}

#[test]
fn label_on_disk_edge_cases_of_names() {
    assert_eq!(LabelOnDisk::new("a/b.tar.jpg", "d/").label_src(), "d/b.tar.txt");
    assert_eq!(LabelOnDisk::new("a/.hidden", "d").label_name(), ".hidden.txt");
    assert_eq!(LabelOnDisk::new("noext", "").label_src(), "noext.txt");
    assert_eq!(LabelOnDisk::new("dir/img.jpg/", "d").img_name(), "img.jpg");
    assert_eq!(LabelOnDisk::new("dir/img.jpg/.", "d").img_name(), "img.jpg");
}

#[test]
fn prefixes_are_added_and_removed_on_the_label_name() {
    let p = LabelOnDisk::new("in/x.jpg", "in");
    let q = p.add_prefix("new_");
    assert_eq!(q.label_name(), "new_x.txt");
    assert_eq!(q.label_src(), "in/new_x.txt");
    assert_eq!(q.img_name(), "x.jpg");
    let r = q.remove_prefix("new_");
    assert_eq!(r.label_name(), "x.txt");
    let both = LabelOnDisk::new("in/ab_ab.jpg", "in").remove_prefix("ab");
    assert_eq!(both.label_name(), "_.txt");
    assert_eq!(p.remove_prefix("").label_name(), "x.txt");
}

#[test]
fn remove_prefix_undoes_add_prefix() {
    for name in ["a.jpg", "aaa.jpg", "shot-11.jpg"] {
        let p = LabelOnDisk::new(name, "dir");
        assert_eq!(p.add_prefix("zz_").remove_prefix("zz_").label_name(), p.label_name());
    }
}

#[test]
fn empty_directory_is_an_error() {
    let r = Dataset::from_input_dir("input", vec![], &vec![]);
    assert_eq!(r.err(), Some(DatasetError::Empty));
}

#[test]
fn dataset_is_sorted_alphanumerically() {
    let d = Dataset::from_input_dir("in", paths(&["in/shot-2.jpg", "in/shot-11.jpg", "in/shot-1.jpg"]), &vec![])
        .unwrap();
    let names: Vec<&str> = d.iter_data().iter().map(|p| p.img_name()).collect();
    assert_eq!(names, vec!["shot-1.jpg", "shot-2.jpg", "shot-11.jpg"]);
}

#[test]
fn dataset_starts_at_first_image_without_label() {
    let d = Dataset::from_input_dir(
        "in",
        paths(&["in/a.jpg", "in/b.jpg", "in/c.jpg"]),
        &paths(&["a.txt", "c.txt"]),
    )
    .unwrap();
    assert_eq!(d.get_progress(), (0, 1, 3));
    assert_eq!(d.current_name(), "b.jpg");
    let all = Dataset::from_input_dir("in", paths(&["in/a.jpg", "in/b.jpg"]), &paths(&["a.txt", "b.txt"])).unwrap();
    assert_eq!(all.get_progress().1, 0);
}

#[test]
fn with_prefix_prefixes_labels_after_choosing_the_start() {
    let d = Dataset::with_prefix(
        "in",
        paths(&["in/a.jpg", "in/b.jpg"]),
        &paths(&["a.txt"]),
        "new_",
    )
    .unwrap();
    assert_eq!(d.get_progress().1, 1);
    assert_eq!(d.current().label_name(), "new_b.txt");
    assert_eq!(d.iter_data()[0].label_src(), "in/new_a.txt");
}

#[test]
fn current_img_uri_is_a_file_address() {
    let d = Dataset::from_input_dir("in", paths(&["in/a.jpg"]), &vec![]).unwrap();
    assert_eq!(d.current_img_uri(), "file://a.jpg");
    assert_eq!(d.current_img_path(), "a.jpg");
}

fn five() -> Dataset {
    Dataset::from_input_dir("d", paths(&["d/1.jpg", "d/2.jpg", "d/3.jpg", "d/4.jpg", "d/5.jpg"]), &vec![]).unwrap()
}

#[test]
fn next_and_previous_stop_at_the_ends() {
    let mut d = five();
    assert_eq!(d.go(&DatasetMovement::Previous), PendingSearch::Done);
    assert_eq!(d.get_progress().1, 0);
    for _ in 0..10 {
        d.go(&DatasetMovement::Next);
    }
    assert_eq!(d.get_progress().1, 4);
}

#[test]
fn next_then_previous_returns() {
    let mut d = five();
    d.go(&DatasetMovement::JumpTo(2));
    d.go(&DatasetMovement::Next);
    d.go(&DatasetMovement::Previous);
    assert_eq!(d.get_progress().1, 2);
    d.go(&DatasetMovement::Previous);
    d.go(&DatasetMovement::Next);
    assert_eq!(d.get_progress().1, 2);
}

#[test]
fn jump_past_the_end_lands_on_the_last_image() {
    let mut d = five();
    d.go(&DatasetMovement::JumpTo(3));
    assert_eq!(d.get_progress().1, 3);
    d.go(&DatasetMovement::JumpTo(100));
    assert_eq!(d.get_progress().1, 4);
}

#[test]
fn searches_are_left_to_the_caller() {
    let mut d = five();
    d.go(&DatasetMovement::JumpTo(1));
    let classes: HashSet<usize> = [3].into_iter().collect();
    assert_eq!(d.go(&DatasetMovement::NextContaining(classes.clone())), PendingSearch::Forward);
    assert_eq!(d.go(&DatasetMovement::PreviousContaining(classes)), PendingSearch::Backward);
    assert_eq!(d.get_progress().1, 1);
}

#[test]
fn search_steps_move_one_image_until_the_end() {
    let mut d = five();
    assert!(d.search_step(false, false));
    assert!(!d.search_step(true, false));
    assert_eq!(d.get_progress().1, 1);
    assert!(d.search_step(true, true));
    assert_eq!(d.get_progress().1, 1);
    d.go(&DatasetMovement::JumpTo(4));
    assert!(d.search_step(true, false));
    assert!(!d.search_step(false, false));
    assert_eq!(d.get_progress().1, 3);
}

/// Runs a search the way the labeling window does, with `hits` saying which
/// images hold a wanted class.
fn run_search(d: &mut Dataset, forward: bool, hits: &[bool]) {
    let mut hit = false;
    while !d.search_step(forward, hit) {
        hit = hits[d.get_progress().1];
    }
}

#[test]
fn search_lands_on_the_nearest_hit_or_the_end() {
    let hits = [true, false, false, true, false];
    let mut d = five();
    d.go(&DatasetMovement::JumpTo(1));
    assert_eq!(d.go(&DatasetMovement::NextContaining(HashSet::from([7]))), PendingSearch::Forward);
    run_search(&mut d, true, &hits);
    assert_eq!(d.get_progress().1, 3);
    run_search(&mut d, true, &hits);
    assert_eq!(d.get_progress().1, 4);
    run_search(&mut d, false, &hits);
    assert_eq!(d.get_progress().1, 3);
    run_search(&mut d, false, &hits);
    assert_eq!(d.get_progress().1, 0);
    run_search(&mut d, false, &hits);
    assert_eq!(d.get_progress().1, 0);
    let none = [false; 5];
    d.go(&DatasetMovement::JumpTo(2));
    run_search(&mut d, false, &none);
    assert_eq!(d.get_progress().1, 0);
}

#[test]
fn contains_any_class_looks_for_one_shown_class() {
    let classes: HashSet<usize> = [3, 7].into_iter().collect();
    assert!(contains_any_class(&vec![1, 7], &classes));
    assert!(!contains_any_class(&vec![1, 2], &classes));
    assert!(!contains_any_class(&vec![], &classes));
}

#[test]
fn previous_positions_saturate_at_the_start() {
    let mut d = five();
    d.go(&DatasetMovement::JumpTo(2));
    assert_eq!(d.previous_label_positions(3), vec![1, 0, 0]);
    let back: Vec<&str> = d.previous_datapoints(3).iter().map(|p| p.img_name()).collect();
    assert_eq!(back, vec!["3.jpg", "2.jpg", "1.jpg", "1.jpg"]);
    assert_eq!(d.previous_label_positions(0), Vec::<usize>::new());
}

#[test]
fn movements_from_keys() {
    assert!(DatasetMovement::from_keys(true, true, None).is_none());
    assert!(DatasetMovement::from_keys(false, false, None).is_none());
    assert!(matches!(DatasetMovement::from_keys(true, false, None), Some(DatasetMovement::Next)));
    assert!(matches!(DatasetMovement::from_keys(false, true, None), Some(DatasetMovement::Previous)));
    let shown: HashSet<usize> = [2].into_iter().collect();
    match DatasetMovement::from_keys(true, false, Some(shown.clone())) {
        Some(DatasetMovement::NextContaining(c)) => assert_eq!(c, shown),
        _ => panic!("expected a search"),
    }
    assert!(matches!(
        DatasetMovement::from_keys(false, true, Some(shown)),
        Some(DatasetMovement::PreviousContaining(_))
    ));
}
