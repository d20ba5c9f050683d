use chrono::{Duration, TimeZone, Utc};
use yasc::saves::{
    compose_file_name, file_name, parse_file_name, parse_small_number, same_bytes,
    split_file_name, write_small_number, SavedGameInfo, SavedGamesCatalog, VERSION,
};

#[test]
fn check_saved_games_catalog_is_empty_in_beginning() {
    let catalog = SavedGamesCatalog::new(b"test", &Vec::new());

    assert_eq!(catalog.list_saved_games().len(), 0);
}

#[test]
fn check_saved_games_catalog_is_not_empty_after_saving() {
    let mut catalog = SavedGamesCatalog::new(b"test", &Vec::new());

    assert_eq!(catalog.list_saved_games().len(), 0);

    let saved = catalog.save(b"some_name", Utc::now().timestamp());

    assert!(saved.is_some());
    assert_eq!(catalog.list_saved_games().len(), 1);

    let (info, _) = saved.unwrap();
    assert_eq!(info.name, b"some_name".to_vec());
    assert_eq!(info.version, 1);
    let now = Utc::now() + Duration::seconds(1);
    let before = now - Duration::seconds(10);
    let timestamp = Utc.timestamp_opt(info.timestamp, 0).unwrap();
    assert!(timestamp < now);
    assert!(timestamp > before);
}

#[test]
fn check_saved_engine_is_recoverable() {
    let mut catalog = SavedGamesCatalog::new(b"test", &Vec::new());

    let saved = catalog.save(b"name", 1704164645);

    assert!(saved.is_some());
    let (info, file) = saved.unwrap();
    assert_eq!(file, b"test_1_name_20240102030405.yaml".to_vec());

    let loaded = catalog.load(&info);
    assert!(loaded.is_some());
    assert_eq!(loaded.unwrap(), file);
}

#[test]
fn check_saved_engine_is_recoverable_through_new_catalog() {
    let mut catalog = SavedGamesCatalog::new(b"test", &Vec::new());

    let saved = catalog.save(b"name", 1704164645);

    assert!(saved.is_some());
    let (info, file) = saved.unwrap();

    let other_catalog = SavedGamesCatalog::new(b"test", &vec![file.clone()]);
    assert_eq!(other_catalog.list_saved_games().len(), 1);
    assert_eq!(
        other_catalog.list_saved_games().get(0).cloned(),
        Some(info.clone())
    );

    let loaded = other_catalog.load(&info);
    assert!(loaded.is_some());
    assert_eq!(loaded.unwrap(), file);
}

#[test]
fn file_name_is_read_field_by_field() {
    let info = parse_file_name(b"test_1_name_20240102030405.yaml", b"test");
    assert_eq!(
        info,
        Some(SavedGameInfo {
            name: b"name".to_vec(),
            timestamp: 1704164645,
            version: VERSION,
        })
    );
    // The version may have a plus sign and zeros in front.
    let info = parse_file_name(b"test_+001__19700101000001.yaml", b"test").unwrap();
    assert_eq!(info.name, Vec::<u8>::new());
    assert_eq!(info.timestamp, 1);
}

#[test]
fn file_name_of_another_kind_is_passed_over() {
    let prefix = b"test";
    let bad: Vec<&[u8]> = vec![
        b"",
        b"test",
        b"other_1_name_20240102030405.yaml",
        b"tes_1_name_20240102030405.yaml",
        b"test_2_name_20240102030405.yaml",
        b"test_x_name_20240102030405.yaml",
        b"test__name_20240102030405.yaml",
        b"test_-1_name_20240102030405.yaml",
        b"test_257_name_20240102030405.yaml",
        b"test_1_some_name_20240102030405.yaml",
        b"test_1_name20240102030405.yaml",
        b"test_1_name_20240102030405",
        b"test_1_name_20240102030405.yml",
        b"test_1_name_20241302030405.yaml",
        b"test_1_name_202401.yaml",
        b"test_1_name_\xff.yaml",
    ];
    for name in bad {
        assert_eq!(parse_file_name(name, prefix), None);
    }
    // A prefix with a separator in it matches no file name.
    assert_eq!(
        parse_file_name(b"my_test_1_name_20240102030405.yaml", b"my_test"),
        None
    );
}

#[test]
fn small_numbers_are_read_as_the_standard_library_reads_them() {
    let texts: Vec<&str> = vec![
        "", "+", "-", "0", "1", "+1", "-1", "007", "255", "256", "0255", "00000000000000000001",
        "99999999999999999999", "1a", "a1", "1 ", " 1", "+-1", "++1", "1+", "25", "2_5",
    ];
    for text in texts {
        assert_eq!(parse_small_number(text.as_bytes()), text.parse::<u8>().ok());
    }
}

#[test]
fn small_numbers_are_written_without_zeros_in_front() {
    for number in 0..=255u8 {
        assert_eq!(write_small_number(number), number.to_string().into_bytes());
    }
}

#[test]
fn file_name_holds_prefix_version_name_and_time() {
    let game = SavedGameInfo {
        name: b"first".to_vec(),
        timestamp: 0,
        version: 12,
    };
    assert_eq!(
        file_name(b"games", &game),
        Some(b"games_12_first_19700101000000.yaml".to_vec())
    );
    let late = SavedGameInfo {
        name: b"late".to_vec(),
        timestamp: i64::MAX,
        version: 1,
    };
    assert_eq!(file_name(b"games", &late), None);
}

#[test]
fn catalog_lists_the_games_of_its_own_files_in_order() {
    let names: Vec<Vec<u8>> = vec![
        b"test_1_b_20240102030405.yaml".to_vec(),
        b"notes.txt".to_vec(),
        b"other_1_c_20240102030405.yaml".to_vec(),
        b"test_1_a_20230102030405.yaml".to_vec(),
    ];
    let mut catalog = SavedGamesCatalog::new(b"test", &names);
    let games = catalog.list_saved_games().clone();
    assert_eq!(games.len(), 2);
    assert_eq!(games[0].name, b"b".to_vec());
    assert_eq!(games[1].name, b"a".to_vec());
    assert!(games[1].timestamp < games[0].timestamp);
    assert!(catalog.knows(&games[1]));
    assert!(games[0].same(&games[0].clone()));
    assert!(!games[0].same(&games[1]));

    let stranger = SavedGameInfo {
        name: b"c".to_vec(),
        timestamp: games[0].timestamp,
        version: 1,
    };
    assert!(!catalog.knows(&stranger));
    assert_eq!(catalog.load(&stranger), None);
    assert_eq!(catalog.load(&games[1]), Some(names[3].clone()));

    // A time that cannot be written leaves the list as it is.
    assert_eq!(catalog.save(b"late", i64::MAX), None);
    assert_eq!(catalog.list_saved_games().len(), 2);
    assert!(same_bytes(b"abc", b"abc"));
    assert!(!same_bytes(b"abc", b"abd"));
    assert!(!same_bytes(b"abc", b"ab"));
}

#[test]
fn file_name_is_taken_apart_at_the_separators() {
    assert_eq!(
        split_file_name(b"test_1_name_whenever", b"test"),
        Some((b"name".to_vec(), b"whenever".to_vec()))
    );
    assert_eq!(
        split_file_name(b"_01__", b""),
        Some((Vec::new(), Vec::new()))
    );
    assert_eq!(split_file_name(b"test_1_name", b"test"), None);
    assert_eq!(split_file_name(b"test_1_na_me_time", b"test"), None);
    assert_eq!(split_file_name(b"test_3_name_time", b"test"), None);
    assert_eq!(split_file_name(b"test_1_name_time", b"tests"), None);
}

#[test]
fn file_name_is_put_together_with_separators() {
    assert_eq!(
        compose_file_name(b"test", 1, b"name", b"whenever"),
        b"test_1_name_whenever.yaml".to_vec()
    );
    assert_eq!(
        compose_file_name(b"", 240, b"", b""),
        b"_240__.yaml".to_vec()
    );
    let name = compose_file_name(b"a", 1, b"b", b"20240102030405");
    assert_eq!(
        parse_file_name(&name, b"a"),
        Some(SavedGameInfo {
            name: b"b".to_vec(),
            timestamp: 1704164645,
            version: 1,
        })
    );
}
