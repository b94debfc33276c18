use renamelayer::apply::{change_name, collect_verdicts, name_changes, rename_layers_in_sqlite};
use renamelayer::error::ClipError;
use renamelayer::layer::{find_layer_index, get_layers, ClipLayer};
use renamelayer::naming::{make_name, push_decimal};
use renamelayer::rename::{rename_layers_in_folder, Rename};

fn layer(main_id: u64, name: &str, kind: u64, folder: u64, next: u64, child: u64) -> ClipLayer {
    ClipLayer {
        pw_id: main_id + 1000,
        main_id,
        layer_name: name.to_string(),
        layer_type: kind,
        layer_folder: folder,
        layer_next_index: next,
        layer_first_child_index: child,
    }
}

/// Root 10 holds leaf 30, folder 20 and leaf 50; folder 20 holds leaves 40, 60 and 70.
fn sample() -> Vec<ClipLayer> {
    vec![
        layer(70, "layer 9", 1, 0, 0, 0),
        layer(10, "", 256, 1, 0, 30),
        layer(50, "layer 3", 1, 0, 0, 0),
        layer(20, "group", 0, 17, 50, 40),
        layer(40, "layer 1", 1, 0, 60, 0),
        layer(30, "layer 2", 1, 0, 20, 0),
        layer(60, "sketch", 1, 0, 70, 0),
    ]
}

fn is_layer(name: &str) -> bool {
    name.starts_with("layer ")
}

fn pairs(r: Result<Vec<renamelayer::apply::LayerChange>, ClipError>) -> Vec<(u64, String)> {
    r.unwrap().into_iter().map(|c| (c.main_id, c.name)).collect()
}

#[test]
fn make_name_joins_base_and_number() {
    assert_eq!(make_name("root", 1), "root 1");
    assert_eq!(make_name("root ", 2), "root  2");
    assert_eq!(make_name("", 10), " 10");
    assert_eq!(make_name("group", 0), "group 0");
    assert_eq!(make_name("a b", 18446744073709551615), "a b 18446744073709551615");
    assert_eq!(make_name("x", 1203), format!("{} {}", "x", 1203));
}

#[test]
fn push_decimal_writes_digits() {
    let mut s = String::from("n=");
    push_decimal(&mut s, 907);
    assert_eq!(s, "n=907");
    push_decimal(&mut s, 5);
    assert_eq!(s, "n=9075");
}

#[test]
fn get_layers_sorts_and_finds_the_root() {
    let mut v = sample();
    assert_eq!(get_layers(&mut v), Ok(10));
    let ids: Vec<u64> = v.iter().map(|l| l.main_id).collect();
    assert_eq!(ids, vec![10, 20, 30, 40, 50, 60, 70]);
    assert_eq!(v[3].layer_name, "layer 1");
    assert_eq!(v[3].pw_id, 1040);
}

#[test]
fn get_layers_refuses_records_without_a_root() {
    let mut v = vec![layer(2, "a", 1, 0, 0, 0), layer(1, "b", 256, 0, 0, 0), layer(3, "c", 0, 1, 0, 0)];
    assert_eq!(get_layers(&mut v), Err(ClipError::UnknownFileStruct));
    let ids: Vec<u64> = v.iter().map(|l| l.main_id).collect();
    assert_eq!(ids, vec![1, 2, 3]);
    let mut none: Vec<ClipLayer> = Vec::new();
    assert_eq!(get_layers(&mut none), Err(ClipError::UnknownFileStruct));
}

#[test]
fn get_layers_refuses_two_roots() {
    let mut v = vec![layer(2, "", 256, 1, 0, 0), layer(1, "", 256, 1, 0, 0)];
    assert_eq!(get_layers(&mut v), Err(ClipError::UnknownFileStruct));
}

#[test]
fn find_layer_index_finds_identifiers_not_places() {
    let mut v = sample();
    get_layers(&mut v).unwrap();
    assert_eq!(find_layer_index(&v, 10), Some(0));
    assert_eq!(find_layer_index(&v, 40), Some(3));
    assert_eq!(find_layer_index(&v, 70), Some(6));
    assert_eq!(find_layer_index(&v, 0), None);
    assert_eq!(find_layer_index(&v, 45), None);
    assert_eq!(find_layer_index(&v, 71), None);
    assert_eq!(find_layer_index(&Vec::new(), 1), None);
}

#[test]
fn find_layer_index_takes_the_first_of_equal_identifiers() {
    let v = vec![layer(1, "a", 1, 0, 0, 0), layer(5, "b", 1, 0, 0, 0), layer(5, "c", 1, 0, 0, 0)];
    assert_eq!(find_layer_index(&v, 5), Some(1));
}

#[test]
fn walk_numbers_the_renamed_leaves_of_each_folder() {
    let mut v = sample();
    get_layers(&mut v).unwrap();
    let verdicts = collect_verdicts(&v, is_layer);
    assert_eq!(verdicts, vec![false, false, true, true, true, false, true]);
    let out = rename_layers_in_folder(&v, 0, "top", &verdicts).unwrap();
    assert_eq!(
        out,
        vec![
            Rename { index: 2, main_id: 30, folder: 0, number: 1 },
            Rename { index: 3, main_id: 40, folder: 1, number: 1 },
            Rename { index: 6, main_id: 70, folder: 1, number: 2 },
            Rename { index: 4, main_id: 50, folder: 0, number: 2 },
        ]
    );
    assert_eq!(change_name(&v, 0, "top", &out[0]), "top 1");
    assert_eq!(change_name(&v, 0, "top", &out[2]), "group 2");
    let names: Vec<String> = name_changes(&v, 0, "top", &out).into_iter().map(|c| c.name).collect();
    assert_eq!(names, vec!["top 1", "group 1", "group 2", "top 2"]);
}

#[test]
fn empty_base_name_leaves_the_root_folder_alone() {
    let mut v = sample();
    get_layers(&mut v).unwrap();
    let out = rename_layers_in_folder(&v, 0, "", &vec![true; 7]).unwrap();
    assert_eq!(
        out,
        vec![
            Rename { index: 3, main_id: 40, folder: 1, number: 1 },
            Rename { index: 5, main_id: 60, folder: 1, number: 2 },
            Rename { index: 6, main_id: 70, folder: 1, number: 3 },
        ]
    );
}

#[test]
fn no_verdict_no_change() {
    let mut v = sample();
    get_layers(&mut v).unwrap();
    assert_eq!(rename_layers_in_folder(&v, 0, "top", &vec![false; 7]), Ok(Vec::new()));
}

#[test]
fn walk_refuses_a_link_to_nowhere() {
    let mut v = sample();
    v[2].layer_next_index = 99;
    get_layers(&mut v).unwrap();
    assert_eq!(
        rename_layers_in_folder(&v, 0, "top", &vec![true; 7]),
        Err(ClipError::UnknownFileStruct)
    );
}

#[test]
fn walk_refuses_a_chain_that_comes_back() {
    let mut v = sample();
    v[0].layer_next_index = 40;
    get_layers(&mut v).unwrap();
    assert_eq!(
        rename_layers_in_folder(&v, 0, "top", &vec![true; 7]),
        Err(ClipError::UnknownFileStruct)
    );
    let mut w = sample();
    w[2].layer_next_index = 10;
    get_layers(&mut w).unwrap();
    assert_eq!(
        rename_layers_in_folder(&w, 0, "top", &vec![false; 7]),
        Err(ClipError::UnknownFileStruct)
    );
}

#[test]
fn walk_refuses_a_start_that_is_no_folder() {
    let mut v = sample();
    get_layers(&mut v).unwrap();
    assert_eq!(
        rename_layers_in_folder(&v, 2, "top", &vec![true; 7]),
        Err(ClipError::UnknownFileStruct)
    );
}

#[test]
fn walk_of_an_inner_folder() {
    let mut v = sample();
    get_layers(&mut v).unwrap();
    let out = rename_layers_in_folder(&v, 1, "", &vec![true; 7]).unwrap();
    assert_eq!(out, Vec::new());
    let out = rename_layers_in_folder(&v, 1, "g", &vec![true; 7]).unwrap();
    assert_eq!(out.len(), 3);
    assert_eq!(change_name(&v, 1, "g", &out[2]), "g 3");
}

#[test]
fn two_layers_under_the_root_are_renamed_in_order() {
    let mut v = vec![
        layer(3, "layer2", 1, 0, 0, 0),
        layer(2, "layer1", 1, 0, 3, 0),
        layer(1, "A", 256, 1, 0, 2),
    ];
    let r = rename_layers_in_sqlite(&mut v, "root", |n: &str| {
        n.starts_with("layer") && n[5..].chars().all(|c| c.is_ascii_digit()) && n.len() > 5
    });
    assert_eq!(pairs(r), vec![(2, "root 1".to_string()), (3, "root 2".to_string())]);
    assert_eq!(v[0].layer_name, "A");
    assert_eq!(v[1].layer_name, "layer1");
    assert_eq!(v[1].pw_id, 1002);
    let r = rename_layers_in_sqlite(&mut v, "root ", |n: &str| n.starts_with("layer"));
    assert_eq!(pairs(r), vec![(2, "root  1".to_string()), (3, "root  2".to_string())]);
}

#[test]
fn second_run_on_renamed_layers_changes_nothing() {
    let accepts = |n: &str| n.starts_with("layer ") || n.starts_with("top ") || n.starts_with("group ");
    let mut v = sample();
    let first = pairs(rename_layers_in_sqlite(&mut v, "top", accepts));
    assert_eq!(
        first,
        vec![
            (30, "top 1".to_string()),
            (40, "group 1".to_string()),
            (70, "group 2".to_string()),
            (50, "top 2".to_string()),
        ]
    );
    for (id, name) in first.iter() {
        for l in v.iter_mut() {
            if l.main_id == *id {
                l.layer_name = name.clone();
            }
        }
    }
    let second = pairs(rename_layers_in_sqlite(&mut v, "top", accepts));
    assert_eq!(second, first);
}

#[test]
fn rename_layers_in_sqlite_refuses_broken_records() {
    let mut v = sample();
    v[1].layer_type = 0;
    assert_eq!(
        rename_layers_in_sqlite(&mut v, "top", is_layer).map(|c| c.len()),
        Err(ClipError::UnknownFileStruct)
    );
    let mut w = sample();
    w[3].layer_first_child_index = 41;
    assert_eq!(
        rename_layers_in_sqlite(&mut w, "top", is_layer).map(|c| c.len()),
        Err(ClipError::UnknownFileStruct)
    );
}

#[test]
fn rename_layers_in_sqlite_with_empty_base() {
    let mut v = sample();
    let r = pairs(rename_layers_in_sqlite(&mut v, "", is_layer));
    assert_eq!(r, vec![(40, "group 1".to_string()), (70, "group 2".to_string())]);
}
