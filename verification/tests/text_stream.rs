use electorium::text_stream::{record, Numbering};

fn table() -> Vec<String> {
    vec!["".to_string(), "Alice".to_string(), "Bob".to_string(), "Alice".to_string()]
}

#[test]
fn numbering_gives_a_name_of_the_table_its_last_place() {
    let mut numbering = Numbering::new(table());
    assert_eq!(numbering.get_num(&"Bob".to_string()).ok(), Some(2));
    assert_eq!(numbering.get_num(&"Alice".to_string()).ok(), Some(3));
    assert_eq!(numbering.get_num(&"".to_string()).ok(), Some(0));
}

#[test]
fn numbering_gives_other_names_ids_from_255_down_and_keeps_them() {
    let mut numbering = Numbering::new(table());
    assert_eq!(numbering.get_num(&"Zed".to_string()).ok(), Some(255));
    assert_eq!(numbering.get_num(&"Yan".to_string()).ok(), Some(254));
    assert_eq!(numbering.get_num(&"Bob".to_string()).ok(), Some(2));
    assert_eq!(numbering.get_num(&"Zed".to_string()).ok(), Some(255));
    assert_eq!(numbering.get_num(&"Xi".to_string()).ok(), Some(253));
    assert_eq!(numbering.get_num(&"Yan".to_string()).ok(), Some(254));
}

#[test]
fn numbering_runs_out_of_ids_after_255_names() {
    let mut numbering = Numbering::new(Vec::new());
    for i in 0..255u32 {
        let id = numbering.get_num(&format!("name{}", i)).ok();
        assert_eq!(id, Some((255 - i) as u8));
    }
    assert!(numbering.get_num(&"one more".to_string()).is_err());
    // names that have an ID keep it
    assert_eq!(numbering.get_num(&"name0".to_string()).ok(), Some(255));
    assert_eq!(numbering.get_num(&"name254".to_string()).ok(), Some(1));
    assert!(numbering.get_num(&"another".to_string()).is_err());
}

#[test]
fn numbering_cuts_a_place_beyond_a_byte() {
    let mut names: Vec<String> = (0..300).map(|i| format!("n{}", i)).collect();
    names[299] = "late".to_string();
    let mut numbering = Numbering::new(names);
    assert_eq!(numbering.get_num(&"late".to_string()).ok(), Some(43));
    assert_eq!(numbering.get_num(&"n256".to_string()).ok(), Some(0));
}

#[test]
fn record_holds_voter_target_and_votes() {
    assert_eq!(record(1, 2, 3), [1, 2, 3]);
    assert_eq!(record(255, 0, 9), [255, 0, 9]);
}
