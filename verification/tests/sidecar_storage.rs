use rapidraw_core::paths::lies_inside;
use rapidraw_core::paths::names_same_path;
use rapidraw_core::sidecar_storage::belongs_to_copy;
use rapidraw_core::sidecar_storage::copy_name_for_hash;
use rapidraw_core::sidecar_storage::copy_sidecars;
use rapidraw_core::sidecar_storage::directory_for_hash;
use rapidraw_core::sidecar_storage::image_storage_directory;
use rapidraw_core::sidecar_storage::initialize;
use rapidraw_core::sidecar_storage::is_initialized;
use rapidraw_core::sidecar_storage::legacy_rrexif_path;
use rapidraw_core::sidecar_storage::legacy_sidecar_path;
use rapidraw_core::sidecar_storage::legacy_sidecar_paths;
use rapidraw_core::sidecar_storage::migration_step;
use rapidraw_core::sidecar_storage::move_sidecars;
use rapidraw_core::sidecar_storage::parse_legacy_name;
use rapidraw_core::sidecar_storage::primary_sidecar_path;
use rapidraw_core::sidecar_storage::remove_sidecars;
use rapidraw_core::sidecar_storage::remove_virtual_copy;
use rapidraw_core::sidecar_storage::removes_legacy;
use rapidraw_core::sidecar_storage::sidecar_entries;
use rapidraw_core::sidecar_storage::sidecar_path;
use rapidraw_core::sidecar_storage::sidecar_root;
use rapidraw_core::sidecar_storage::virtual_copy_ids;
use rapidraw_core::sidecar_storage::ImagePath;
use rapidraw_core::sidecar_storage::MigrationStep;
use rapidraw_core::sidecar_storage::SidecarStorage;

fn image(name: &str) -> ImagePath {
    ImagePath {
        path: format!("/photos/{name}"),
        directory: String::from("/photos"),
        name: String::from(name),
    }
}

fn storage() -> SidecarStorage {
    let mut storage = SidecarStorage::new(false);
    initialize(&mut storage, String::from("/app-data/sidecars")).unwrap();
    storage
}

fn strings(names: &[&str]) -> Vec<String> {
    names.iter().map(|name| String::from(*name)).collect()
}

#[test]
fn migrates_and_copies_sidecars_without_writing_next_to_photos() {
    let storage = storage();
    let source = image("source.jpg");
    let legacy_primary = legacy_sidecar_path(&source, None);
    let legacy_copy = legacy_sidecar_path(&source, Some("a1b2c3"));
    assert_eq!(legacy_primary, "/photos/source.jpg.rrdata");
    assert_eq!(legacy_copy, "/photos/source.jpg.a1b2c3.rrdata");

    // Both sidecars next to the photo are taken over and leave.
    for name in ["source.jpg.rrdata", "source.jpg.a1b2c3.rrdata"] {
        let parsed = parse_legacy_name(name).unwrap();
        assert_eq!(parsed.image_name, "source.jpg");
        let step = migration_step(true, Some(5), None, false);
        assert_eq!(step, MigrationStep::CopyThenRemove);
        assert!(removes_legacy(step, true, true));
    }

    let private_primary = primary_sidecar_path(&storage, &source);
    assert!(private_primary.starts_with("/app-data/sidecars/"));
    assert!(!private_primary.starts_with("/photos"));
    assert_eq!(
        virtual_copy_ids(&strings(&["primary.rrdata", "a1b2c3.rrdata"])),
        strings(&["a1b2c3"])
    );

    let destination = image("destination.jpg");
    let entries = sidecar_entries(
        &storage,
        &source,
        true,
        &strings(&["a1b2c3"]),
        &vec![true],
    );
    let steps = copy_sidecars(&storage, &entries, &destination);
    assert_eq!(steps.len(), 2);
    assert_eq!(steps[0].source, private_primary);
    assert_eq!(
        steps[0].destination,
        primary_sidecar_path(&storage, &destination)
    );
    assert_eq!(
        steps[1].destination,
        sidecar_path(&storage, &destination, Some("a1b2c3"))
    );
    for step in &steps {
        assert!(step.destination.starts_with("/app-data/sidecars/"));
    }
}

#[test]
fn the_storage_is_initialized_once() {
    let mut storage = SidecarStorage::new(false);
    assert!(!is_initialized(&storage));
    assert!(initialize(&mut storage, String::from("/a")).is_ok());
    assert!(is_initialized(&storage));
    assert!(initialize(&mut storage, String::from("/a")).is_ok());
    assert_eq!(
        initialize(&mut storage, String::from("/b")),
        Err(String::from(
            "Sidecar storage was initialized with a different directory"
        ))
    );
    assert_eq!(storage.root, Some(String::from("/a")));
}

#[test]
fn another_spelling_of_the_root_is_accepted() {
    let mut storage = SidecarStorage::new(false);
    initialize(&mut storage, String::from("/data/app/sidecars-v1")).unwrap();
    for same in ["/data//app/sidecars-v1", "/data/./app/sidecars-v1/", "//data/app/sidecars-v1/."] {
        assert!(initialize(&mut storage, String::from(same)).is_ok(), "{same}");
    }
    for other in ["data/app/sidecars-v1", "/data/app/../app/sidecars-v1", "/data/app"] {
        assert!(initialize(&mut storage, String::from(other)).is_err(), "{other}");
    }
    assert_eq!(storage.root, Some(String::from("/data/app/sidecars-v1")));
}

#[test]
fn paths_are_compared_by_their_parts() {
    assert!(names_same_path("/photos/a.jpg", "/photos//a.jpg", false));
    assert!(names_same_path("a/./b/", "a/b", false));
    assert!(names_same_path("./a", "./a/.", false));
    assert!(!names_same_path("./a", "a", false));
    assert!(!names_same_path("", "/", false));
    assert!(!names_same_path("a/b", "a\\b", false));
    assert!(names_same_path("C:\\a\\b", "c:/a/b", true));
    assert!(!names_same_path("C:a", "C:\\a", true));
    assert!(!names_same_path("C:/a", "C:/A", true));
    assert!(!names_same_path("//server/share", "/server/share", true));
    assert!(names_same_path("//server/share", "/server/share", false));
    assert!(names_same_path("\\\\server\\share\\a", "//server/share//a/", true));
    assert!(names_same_path("//server", "/server", true));
    assert!(!names_same_path("//./disk/a", "//disk/a", true));
    assert!(names_same_path("\\\\?\\C:\\a", "\\\\?\\C:\\\\a", true));
    assert!(!names_same_path("\\\\?\\C:\\a\\.", "\\\\?\\C:\\a", true));
    assert!(!names_same_path("\\\\?\\C:\\a", "C:\\a", true));
}

#[test]
fn paths_lie_in_directories() {
    assert!(lies_inside("/raw/out/report.json", "/raw//", false));
    assert!(lies_inside("/raw", "/raw/.", false));
    assert!(!lies_inside("/rawer/a", "/raw", false));
    assert!(!lies_inside("/raw", "/raw/out", false));
    assert!(!lies_inside("raw/a", "/raw", false));
    assert!(lies_inside("raw/a", "", false));
    assert!(lies_inside("c:\\raw\\a", "C:/raw", true));
}

#[test]
fn private_sidecars_lie_below_the_data_directory() {
    assert_eq!(sidecar_root("/data/app"), "/data/app/sidecars-v1");
    assert_eq!(sidecar_root("/"), "/sidecars-v1");
}

#[test]
fn a_directory_is_migrated_once_unless_it_is_abandoned() {
    let mut storage = storage();
    assert!(storage.begin_migration("/photos"));
    assert!(!storage.begin_migration("/photos"));
    assert!(storage.begin_migration("/other"));
    assert!(!storage.begin_migration("/photos/"));
    storage.abandon_migration("//photos/.");
    assert!(storage.begin_migration("/photos"));
    assert!(!storage.begin_migration("/other"));
}

#[test]
fn the_directory_of_an_image_is_named_by_a_blake3_hash() {
    let storage = storage();
    let path = ImagePath {
        path: String::new(),
        directory: String::new(),
        name: String::new(),
    };
    let empty = "af1349b9f5f9a1a6a0404dea36dcc9499bcb25c9adc112b7cc9a93cae41f3262";
    assert_eq!(
        image_storage_directory(&storage, &path),
        format!("/app-data/sidecars/af/{empty}")
    );
    assert_eq!(
        directory_for_hash("/root/", "abcdef"),
        "/root/ab/abcdef"
    );
    assert_ne!(
        image_storage_directory(&storage, &image("a.jpg")),
        image_storage_directory(&storage, &image("b.jpg"))
    );
}

#[test]
fn spellings_of_one_path_share_a_directory() {
    let mut storage = storage();
    let spelled = |path: &str| ImagePath {
        path: String::from(path),
        directory: String::new(),
        name: String::new(),
    };
    let (upper, lower) = (spelled("C:\\Photos\\A.JPG"), spelled("c:/photos/a.jpg"));
    assert_ne!(
        image_storage_directory(&storage, &upper),
        image_storage_directory(&storage, &lower)
    );
    storage.windows = true;
    assert_eq!(
        image_storage_directory(&storage, &upper),
        image_storage_directory(&storage, &lower)
    );
}

#[test]
fn copies_with_other_identifiers_are_named_by_a_hash() {
    let storage = storage();
    let photo = image("a.jpg");
    let named = sidecar_path(&storage, &photo, Some(""));
    assert!(named.ends_with("/copy-af1349b9f5f9.rrdata"));
    assert_eq!(
        copy_name_for_hash("0123456789abcdef"),
        "copy-0123456789ab.rrdata"
    );
    assert!(sidecar_path(&storage, &photo, Some("A1b2C3")).ends_with("/A1b2C3.rrdata"));
    assert!(primary_sidecar_path(&storage, &photo).ends_with("/primary.rrdata"));
    assert_ne!(
        sidecar_path(&storage, &photo, Some("000001")),
        sidecar_path(&storage, &photo, Some("000002"))
    );
}

#[test]
fn the_newer_sidecar_wins() {
    assert_eq!(
        migration_step(false, Some(9), Some(1), true),
        MigrationStep::Nothing
    );
    assert_eq!(
        migration_step(true, Some(2), Some(1), true),
        MigrationStep::CopyThenRemove
    );
    assert_eq!(
        migration_step(true, Some(1), Some(1), true),
        MigrationStep::Remove
    );
    assert_eq!(
        migration_step(true, None, Some(1), true),
        MigrationStep::Remove
    );
    assert_eq!(
        migration_step(true, None, None, false),
        MigrationStep::CopyThenRemove
    );
    assert!(!removes_legacy(MigrationStep::Nothing, true, true));
    assert!(!removes_legacy(MigrationStep::CopyThenRemove, false, true));
    assert!(!removes_legacy(MigrationStep::Remove, true, false));
    assert!(removes_legacy(MigrationStep::Remove, false, true));
}

#[test]
fn names_next_to_photos_can_be_read() {
    let plain = parse_legacy_name("a.b.jpg.rrdata").unwrap();
    assert_eq!(plain.image_name, "a.b.jpg");
    assert_eq!(plain.copy_id, None);
    let copy = parse_legacy_name("a.jpg.00ffAA.rrdata").unwrap();
    assert_eq!(copy.image_name, "a.jpg");
    assert_eq!(copy.copy_id, Some(String::from("00ffAA")));
    let short = parse_legacy_name("a.jpg.00ff.rrdata").unwrap();
    assert_eq!(short.image_name, "a.jpg.00ff");
    assert!(parse_legacy_name("a.jpg").is_none());
    assert!(parse_legacy_name("a.jpg.rrexif").is_none());
}

#[test]
fn virtual_copies_are_listed_in_order_and_once() {
    let names = strings(&[
        "ffffff.rrdata",
        "primary.rrdata",
        "00000a.rrdata",
        "ffffff.rrdata",
        "00000g.rrdata",
        "123456.txt",
    ]);
    assert_eq!(virtual_copy_ids(&names), strings(&["00000a", "ffffff"]));
}

#[test]
fn only_existing_sidecars_are_entries() {
    let storage = storage();
    let photo = image("a.jpg");
    let ids = strings(&["000001", "000002"]);
    let entries = sidecar_entries(&storage, &photo, false, &ids, &vec![false, true]);
    assert_eq!(entries.len(), 1);
    assert_eq!(entries[0].copy_id, Some(String::from("000002")));
    assert_eq!(
        entries[0].path,
        sidecar_path(&storage, &photo, Some("000002"))
    );
}

#[test]
fn nothing_moves_onto_itself() {
    let storage = storage();
    let photo = image("a.jpg");
    let entries = sidecar_entries(&storage, &photo, true, &vec![], &vec![]);
    assert!(move_sidecars(&storage, &photo, &entries, &image("a.jpg")).is_none());
    assert!(move_sidecars(&storage, &photo, &entries, &image("/a.jpg")).is_none());
    let steps = move_sidecars(&storage, &photo, &entries, &image("b.jpg")).unwrap();
    assert_eq!(steps.len(), 1);
    assert_eq!(steps[0].source, primary_sidecar_path(&storage, &photo));
}

#[test]
fn sidecars_next_to_a_photo_are_recognised() {
    let photo = image("a.jpg");
    assert!(belongs_to_copy("a.jpg.00ff00.rrdata", &photo));
    assert!(!belongs_to_copy("a.jpg.rrdata", &photo));
    assert!(!belongs_to_copy("b.jpg.00ff00.rrdata", &photo));
    let listing = strings(&["a.jpg", "a.jpg.00ff00.rrdata", "b.jpg.00ff00.rrdata"]);
    assert_eq!(
        legacy_sidecar_paths(&photo, &listing),
        strings(&[
            "/photos/a.jpg.rrdata",
            "/photos/a.jpg.rrexif",
            "/photos/a.jpg.00ff00.rrdata"
        ])
    );
    assert_eq!(legacy_rrexif_path(&photo), "/photos/a.jpg.rrexif");
}

#[test]
fn removing_counts_private_and_legacy_files() {
    let paths = strings(&["/photos/a.jpg.rrdata", "/photos/a.jpg.rrexif"]);
    let plan = remove_sidecars(3, &paths, &vec![false, true]);
    assert_eq!(plan.legacy_files, strings(&["/photos/a.jpg.rrexif"]));
    assert_eq!(plan.removed_count, 4);
    let again = remove_sidecars(0, &paths, &vec![false, false]);
    assert!(again.legacy_files.is_empty());
    assert_eq!(again.removed_count, 0);
    assert!(sidecar_entries(&storage(), &image("a.jpg"), false, &vec![], &vec![]).is_empty());
}

#[test]
fn removing_a_copy_takes_the_files_that_are_there() {
    let storage = storage();
    let photo = image("a.jpg");
    let files = remove_virtual_copy(&storage, &photo, "00ff00", true, true);
    assert_eq!(
        files,
        vec![
            sidecar_path(&storage, &photo, Some("00ff00")),
            String::from("/photos/a.jpg.00ff00.rrdata")
        ]
    );
    assert!(remove_virtual_copy(&storage, &photo, "00ff00", false, false).is_empty());
}
