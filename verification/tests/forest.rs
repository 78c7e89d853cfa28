use docuum::forest::{construct_polyforest, find_node};
use docuum::image::{ImageNode, ImageRecord, RecordEntry, RepositoryTag};
use docuum::state::{Image, State, StateEntry};

fn tag(repository: &str, tag: &str) -> RepositoryTag {
    RepositoryTag { repository: String::from(repository), tag: String::from(tag) }
}

#[test]
fn construct_polyforest_empty() {
    let state = State { images: Vec::new() };
    let image_records: Vec<RecordEntry> = Vec::new();
    let image_ids_in_use: Vec<String> = Vec::new();
    let image_graph = construct_polyforest(&state, true, image_records, &image_ids_in_use, 0);

    assert_eq!(0, image_graph.len());
}

#[test]
fn construct_polyforest_single_image() {
    let image_id = "id-0";

    let mut images = Vec::new();
    images.push(StateEntry {
        id: image_id.to_owned(),
        image: Image { parent_id: None, last_used_since_epoch: 42 },
    });
    let state = State { images };

    let image_record = ImageRecord {
        parent_id: None,
        created_since_epoch: 100,
        repository_tags: vec![tag("alpine", "latest")],
    };

    let mut image_records = Vec::new();
    image_records.push(RecordEntry { id: image_id.to_owned(), record: image_record.clone() });
    let image_ids_in_use: Vec<String> = Vec::new();
    let image_graph = construct_polyforest(&state, true, image_records, &image_ids_in_use, 0);

    assert_eq!(1, image_graph.len());

    assert_eq!(
        Some(&ImageNode { image_record, last_used_since_epoch: 42, ancestors: 0 }),
        find_node(&image_graph, &image_id.to_owned()),
    );
}

#[test]
fn construct_polyforest_single_image_missing_state() {
    let image_id = "id-0";
    let state = State { images: Vec::new() };

    let image_record = ImageRecord {
        parent_id: None,
        created_since_epoch: 100,
        repository_tags: vec![tag("alpine", "latest")],
    };

    let mut image_records = Vec::new();
    image_records.push(RecordEntry { id: image_id.to_owned(), record: image_record.clone() });
    let image_ids_in_use: Vec<String> = Vec::new();
    let image_graph = construct_polyforest(&state, true, image_records, &image_ids_in_use, 0);

    assert_eq!(1, image_graph.len());

    assert_eq!(
        Some(&ImageNode { image_record, last_used_since_epoch: 100, ancestors: 0 }),
        find_node(&image_graph, &image_id.to_owned()),
    );
}

#[test]
fn construct_polyforest_parent_child_increasing_timestamps() {
    let image_id_0 = "id-0";
    let image_id_1 = "id-1";

    let mut images = Vec::new();
    images.push(StateEntry {
        id: image_id_0.to_owned(),
        image: Image { parent_id: None, last_used_since_epoch: 42 },
    });
    images.push(StateEntry {
        id: image_id_1.to_owned(),
        image: Image { parent_id: Some(image_id_0.to_owned()), last_used_since_epoch: 43 },
    });
    let state = State { images };

    let image_record_0 = ImageRecord {
        parent_id: None,
        created_since_epoch: 100,
        repository_tags: vec![tag("alpine", "latest")],
    };
    let image_record_1 = ImageRecord {
        parent_id: Some(image_id_0.to_owned()),
        created_since_epoch: 101,
        repository_tags: vec![tag("debian", "latest")],
    };

    let mut image_records = Vec::new();
    image_records.push(RecordEntry { id: image_id_0.to_owned(), record: image_record_0.clone() });
    image_records.push(RecordEntry { id: image_id_1.to_owned(), record: image_record_1.clone() });
    let image_ids_in_use: Vec<String> = Vec::new();
    let image_graph = construct_polyforest(&state, true, image_records, &image_ids_in_use, 0);

    assert_eq!(2, image_graph.len());

    assert_eq!(
        Some(&ImageNode { image_record: image_record_0, last_used_since_epoch: 43, ancestors: 0 }),
        find_node(&image_graph, &image_id_0.to_owned()),
    );

    assert_eq!(
        Some(&ImageNode { image_record: image_record_1, last_used_since_epoch: 43, ancestors: 1 }),
        find_node(&image_graph, &image_id_1.to_owned()),
    );
}

#[test]
fn construct_polyforest_parent_child_decreasing_timestamps() {
    let image_id_0 = "id-0";
    let image_id_1 = "id-1";

    let mut images = Vec::new();
    images.push(StateEntry {
        id: image_id_0.to_owned(),
        image: Image { parent_id: None, last_used_since_epoch: 43 },
    });
    images.push(StateEntry {
        id: image_id_1.to_owned(),
        image: Image { parent_id: Some(image_id_0.to_owned()), last_used_since_epoch: 42 },
    });
    let state = State { images };

    let image_record_0 = ImageRecord {
        parent_id: None,
        created_since_epoch: 100,
        repository_tags: vec![tag("alpine", "latest")],
    };
    let image_record_1 = ImageRecord {
        parent_id: Some(image_id_0.to_owned()),
        created_since_epoch: 101,
        repository_tags: vec![tag("debian", "latest")],
    };

    let mut image_records = Vec::new();
    image_records.push(RecordEntry { id: image_id_0.to_owned(), record: image_record_0.clone() });
    image_records.push(RecordEntry { id: image_id_1.to_owned(), record: image_record_1.clone() });
    let image_ids_in_use: Vec<String> = Vec::new();
    let image_graph = construct_polyforest(&state, true, image_records, &image_ids_in_use, 0);

    assert_eq!(2, image_graph.len());

    assert_eq!(
        Some(&ImageNode { image_record: image_record_0, last_used_since_epoch: 43, ancestors: 0 }),
        find_node(&image_graph, &image_id_0.to_owned()),
    );

    assert_eq!(
        Some(&ImageNode { image_record: image_record_1, last_used_since_epoch: 42, ancestors: 1 }),
        find_node(&image_graph, &image_id_1.to_owned()),
    );
}

#[test]
fn construct_polyforest_grandparent_parent_child_increasing_timestamps() {
    let image_id_0 = "id-0";
    let image_id_1 = "id-1";
    let image_id_2 = "id-2";

    let mut images = Vec::new();
    images.push(StateEntry {
        id: image_id_0.to_owned(),
        image: Image { parent_id: None, last_used_since_epoch: 42 },
    });
    images.push(StateEntry {
        id: image_id_1.to_owned(),
        image: Image { parent_id: Some(image_id_0.to_owned()), last_used_since_epoch: 43 },
    });
    images.push(StateEntry {
        id: image_id_2.to_owned(),
        image: Image { parent_id: Some(image_id_1.to_owned()), last_used_since_epoch: 44 },
    });
    let state = State { images };

    let image_record_0 = ImageRecord {
        parent_id: None,
        created_since_epoch: 100,
        repository_tags: vec![tag("alpine", "latest")],
    };
    let image_record_1 = ImageRecord {
        parent_id: Some(image_id_0.to_owned()),
        created_since_epoch: 101,
        repository_tags: vec![tag("debian", "latest")],
    };
    let image_record_2 = ImageRecord {
        parent_id: Some(image_id_1.to_owned()),
        created_since_epoch: 102,
        repository_tags: vec![tag("ubuntu", "latest")],
    };

    let mut image_records = Vec::new();
    image_records.push(RecordEntry { id: image_id_0.to_owned(), record: image_record_0.clone() });
    image_records.push(RecordEntry { id: image_id_1.to_owned(), record: image_record_1.clone() });
    image_records.push(RecordEntry { id: image_id_2.to_owned(), record: image_record_2.clone() });
    let image_ids_in_use: Vec<String> = Vec::new();
    let image_graph = construct_polyforest(&state, true, image_records, &image_ids_in_use, 0);

    assert_eq!(3, image_graph.len());

    assert_eq!(
        Some(&ImageNode { image_record: image_record_0, last_used_since_epoch: 44, ancestors: 0 }),
        find_node(&image_graph, &image_id_0.to_owned()),
    );

    assert_eq!(
        Some(&ImageNode { image_record: image_record_1, last_used_since_epoch: 44, ancestors: 1 }),
        find_node(&image_graph, &image_id_1.to_owned()),
    );

    assert_eq!(
        Some(&ImageNode { image_record: image_record_2, last_used_since_epoch: 44, ancestors: 2 }),
        find_node(&image_graph, &image_id_2.to_owned()),
    );
}

#[test]
fn construct_polyforest_grandparent_parent_child_decreasing_timestamps() {
    let image_id_0 = "id-0";
    let image_id_1 = "id-1";
    let image_id_2 = "id-2";

    let mut images = Vec::new();
    images.push(StateEntry {
        id: image_id_0.to_owned(),
        image: Image { parent_id: None, last_used_since_epoch: 44 },
    });
    images.push(StateEntry {
        id: image_id_1.to_owned(),
        image: Image { parent_id: Some(image_id_0.to_owned()), last_used_since_epoch: 43 },
    });
    images.push(StateEntry {
        id: image_id_2.to_owned(),
        image: Image { parent_id: Some(image_id_1.to_owned()), last_used_since_epoch: 42 },
    });
    let state = State { images };

    let image_record_0 = ImageRecord {
        parent_id: None,
        created_since_epoch: 100,
        repository_tags: vec![tag("alpine", "latest")],
    };
    let image_record_1 = ImageRecord {
        parent_id: Some(image_id_0.to_owned()),
        created_since_epoch: 101,
        repository_tags: vec![tag("debian", "latest")],
    };
    let image_record_2 = ImageRecord {
        parent_id: Some(image_id_1.to_owned()),
        created_since_epoch: 102,
        repository_tags: vec![tag("ubuntu", "latest")],
    };

    let mut image_records = Vec::new();
    image_records.push(RecordEntry { id: image_id_0.to_owned(), record: image_record_0.clone() });
    image_records.push(RecordEntry { id: image_id_1.to_owned(), record: image_record_1.clone() });
    image_records.push(RecordEntry { id: image_id_2.to_owned(), record: image_record_2.clone() });
    let image_ids_in_use: Vec<String> = Vec::new();
    let image_graph = construct_polyforest(&state, true, image_records, &image_ids_in_use, 0);

    assert_eq!(3, image_graph.len());

    assert_eq!(
        Some(&ImageNode { image_record: image_record_0, last_used_since_epoch: 44, ancestors: 0 }),
        find_node(&image_graph, &image_id_0.to_owned()),
    );

    assert_eq!(
        Some(&ImageNode { image_record: image_record_1, last_used_since_epoch: 43, ancestors: 1 }),
        find_node(&image_graph, &image_id_1.to_owned()),
    );

    assert_eq!(
        Some(&ImageNode { image_record: image_record_2, last_used_since_epoch: 42, ancestors: 2 }),
        find_node(&image_graph, &image_id_2.to_owned()),
    );
}

#[test]
fn construct_polyforest_multiple_children() {
    let image_id_0 = "id-0";
    let image_id_1 = "id-1";
    let image_id_2 = "id-2";

    let mut images = Vec::new();
    images.push(StateEntry {
        id: image_id_0.to_owned(),
        image: Image { parent_id: None, last_used_since_epoch: 43 },
    });
    images.push(StateEntry {
        id: image_id_1.to_owned(),
        image: Image { parent_id: Some(image_id_0.to_owned()), last_used_since_epoch: 42 },
    });
    images.push(StateEntry {
        id: image_id_2.to_owned(),
        image: Image { parent_id: Some(image_id_0.to_owned()), last_used_since_epoch: 44 },
    });
    let state = State { images };

    let image_record_0 = ImageRecord {
        parent_id: None,
        created_since_epoch: 100,
        repository_tags: vec![tag("alpine", "latest")],
    };
    let image_record_1 = ImageRecord {
        parent_id: Some(image_id_0.to_owned()),
        created_since_epoch: 101,
        repository_tags: vec![tag("debian", "latest")],
    };
    let image_record_2 = ImageRecord {
        parent_id: Some(image_id_0.to_owned()),
        created_since_epoch: 102,
        repository_tags: vec![tag("ubuntu", "latest")],
    };

    let mut image_records = Vec::new();
    image_records.push(RecordEntry { id: image_id_0.to_owned(), record: image_record_0.clone() });
    image_records.push(RecordEntry { id: image_id_1.to_owned(), record: image_record_1.clone() });
    image_records.push(RecordEntry { id: image_id_2.to_owned(), record: image_record_2.clone() });
    let image_ids_in_use: Vec<String> = Vec::new();
    let image_graph = construct_polyforest(&state, true, image_records, &image_ids_in_use, 0);

    assert_eq!(3, image_graph.len());

    assert_eq!(
        Some(&ImageNode { image_record: image_record_0, last_used_since_epoch: 44, ancestors: 0 }),
        find_node(&image_graph, &image_id_0.to_owned()),
    );

    assert_eq!(
        Some(&ImageNode { image_record: image_record_1, last_used_since_epoch: 42, ancestors: 1 }),
        find_node(&image_graph, &image_id_1.to_owned()),
    );

    assert_eq!(
        Some(&ImageNode { image_record: image_record_2, last_used_since_epoch: 44, ancestors: 1 }),
        find_node(&image_graph, &image_id_2.to_owned()),
    );
}

#[test]
fn construct_polyforest_missing_parent_is_root() {
    let image_id = "id-0";
    let state = State { images: Vec::new() };

    let image_record = ImageRecord {
        parent_id: Some(String::from("id-that-does-not-exist")),
        created_since_epoch: 100,
        repository_tags: vec![tag("alpine", "latest")],
    };

    let mut image_records = Vec::new();
    image_records.push(RecordEntry { id: image_id.to_owned(), record: image_record.clone() });
    let image_ids_in_use: Vec<String> = Vec::new();
    let image_graph = construct_polyforest(&state, true, image_records, &image_ids_in_use, 0);

    assert_eq!(1, image_graph.len());
    let node = find_node(&image_graph, &image_id.to_owned()).unwrap();
    assert_eq!(0, node.ancestors);
    assert_eq!(100, node.last_used_since_epoch);
}

#[test]
fn construct_polyforest_propagates_child_usage_to_parent() {
    // A parent last used at 100 whose child was used at 150 is itself
    // treated as used at 150 after propagation.
    let parent_id = "id-parent";
    let child_id = "id-child";

    let mut images = Vec::new();
    images.push(StateEntry {
        id: parent_id.to_owned(),
        image: Image { parent_id: None, last_used_since_epoch: 100 },
    });
    images.push(StateEntry {
        id: child_id.to_owned(),
        image: Image { parent_id: Some(parent_id.to_owned()), last_used_since_epoch: 150 },
    });
    let state = State { images };

    let mut image_records = Vec::new();
    image_records.push(RecordEntry {
        id: parent_id.to_owned(),
        record: ImageRecord {
            parent_id: None,
            created_since_epoch: 10,
            repository_tags: vec![tag("alpine", "latest")],
        },
    });
    image_records.push(RecordEntry {
        id: child_id.to_owned(),
        record: ImageRecord {
            parent_id: Some(parent_id.to_owned()),
            created_since_epoch: 20,
            repository_tags: vec![tag("app", "latest")],
        },
    });
    let image_ids_in_use: Vec<String> = Vec::new();
    let image_graph = construct_polyforest(&state, true, image_records, &image_ids_in_use, 0);

    let parent = find_node(&image_graph, &parent_id.to_owned()).unwrap();
    let child = find_node(&image_graph, &child_id.to_owned()).unwrap();
    assert_eq!(150, parent.last_used_since_epoch);
    assert_eq!(150, child.last_used_since_epoch);
    assert!(parent.last_used_since_epoch >= child.last_used_since_epoch);
}

#[test]
fn construct_polyforest_in_use_image_bumped_to_now() {
    let image_id = "id-0";
    let mut images = Vec::new();
    images.push(StateEntry {
        id: image_id.to_owned(),
        image: Image { parent_id: None, last_used_since_epoch: 42 },
    });
    let state = State { images };

    let mut image_records = Vec::new();
    image_records.push(RecordEntry {
        id: image_id.to_owned(),
        record: ImageRecord {
            parent_id: None,
            created_since_epoch: 100,
            repository_tags: vec![tag("alpine", "latest")],
        },
    });
    let image_ids_in_use = vec![image_id.to_owned()];
    let image_graph = construct_polyforest(&state, false, image_records, &image_ids_in_use, 500);

    let node = find_node(&image_graph, &image_id.to_owned()).unwrap();
    assert_eq!(500, node.last_used_since_epoch);
}

#[test]
fn find_node_absent_id() {
    let image_graph = Vec::new();
    assert_eq!(None, find_node(&image_graph, &String::from("id-0")));
}
