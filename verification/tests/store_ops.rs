use inventario::item::InvError;
use inventario::store::Inventory;

fn s(t: &str) -> String {
    String::from(t)
}

#[test]
fn add_then_list_round_trip() {
    let mut inv = Inventory::new();
    let item = inv.add_at(s("tornillos"), None, 10, 3, s("2024-01-05 10:00:00"));
    assert_eq!(item.id, Some(1));
    assert_eq!(item.name, "tornillos");
    assert_eq!(item.image_path, None);
    assert_eq!(item.cantidad_necesaria, 10);
    assert_eq!(item.cantidad_disponible, 3);
    assert!(!item.created_at.clone().unwrap().is_empty());
    let all = inv.list_all();
    assert_eq!(all.len(), 1);
    assert_eq!(all[0], item);
}

#[test]
fn listing_is_newest_first() {
    let mut inv = Inventory::new();
    let a = inv.add_at(s("a"), None, 1, 1, s("2024-01-05 10:00:00"));
    let b = inv.add_at(s("b"), None, 2, 2, s("2024-01-05 10:00:01"));
    let all = inv.list_all();
    assert_eq!(all.len(), 2);
    assert_eq!(all[0], b);
    assert_eq!(all[1], a);

    let c = inv.add_at(s("c"), None, 3, 3, s("2023-12-31 23:59:59"));
    let all = inv.list_all();
    assert_eq!(all.len(), 3);
    assert_eq!(all[0], b);
    assert_eq!(all[1], a);
    assert_eq!(all[2], c);
}

#[test]
fn equal_timestamps_newest_insertion_first() {
    let mut inv = Inventory::new();
    let a = inv.add_at(s("a"), None, 1, 1, s("2024-01-05 10:00:00"));
    let b = inv.add_at(s("b"), None, 2, 2, s("2024-01-05 10:00:00"));
    let all = inv.list_all();
    assert_eq!(all[0], b);
    assert_eq!(all[1], a);
}

#[test]
fn add_with_image_records_pending_write() {
    let mut inv = Inventory::new();
    let r = inv.add(s("foto"), Some("aGVsbG8="), 1, 0, "/data/inventory_images");
    let (item, write) = r.expect("valid base64 must be accepted");
    let write = write.expect("an image payload must yield a pending write");
    assert_eq!(write.bytes, b"hello".to_vec());
    assert_eq!(item.image_path, Some(write.path.clone()));
    assert!(write.path.starts_with("/data/inventory_images/img_"));
    assert!(write.path.ends_with(".png"));
    let ts = item.created_at.clone().unwrap();
    assert!(ts.len() >= 19);
}

#[test]
fn add_with_data_url_prefix_decodes_same_bytes() {
    let mut inv = Inventory::new();
    let plain = inv
        .add(s("p"), Some("aGVsbG8="), 0, 0, "/d")
        .unwrap()
        .1
        .unwrap();
    let prefixed = inv
        .add(s("q"), Some("data:image/png;base64,aGVsbG8="), 0, 0, "/d")
        .unwrap()
        .1
        .unwrap();
    assert_eq!(plain.bytes, prefixed.bytes);
    assert_eq!(plain.bytes, b"hello".to_vec());
}

#[test]
fn add_without_image_has_no_write() {
    let mut inv = Inventory::new();
    let (item, write) = inv.add(s("sin foto"), None, 4, 4, "/d").unwrap();
    assert!(write.is_none());
    assert_eq!(item.image_path, None);
    assert_eq!(inv.list_all().len(), 1);
}

#[test]
fn malformed_base64_on_add_mutates_nothing() {
    let mut inv = Inventory::new();
    inv.add_at(s("previa"), None, 1, 1, s("2024-01-05 10:00:00"));
    let before = inv.list_all();
    let r = inv.add(s("x"), Some("!!not base64!!"), 1, 1, "/d");
    assert_eq!(r.unwrap_err(), InvError::ImageDecode);
    assert_eq!(inv.list_all(), before);
}

#[test]
fn malformed_base64_on_update_mutates_nothing() {
    let mut inv = Inventory::new();
    let item = inv.add_at(s("previa"), None, 1, 1, s("2024-01-05 10:00:00"));
    let before = inv.list_all();
    let r = inv.update(item.id.unwrap(), s("y"), Some("***"), 2, 2, "/d");
    assert_eq!(r.unwrap_err(), InvError::ImageDecode);
    assert_eq!(inv.list_all(), before);
}

#[test]
fn update_without_image_keeps_image_path() {
    let mut inv = Inventory::new();
    let item = inv.add_at(
        s("caja"),
        Some(s("/data/inventory_images/img_7.png")),
        5,
        5,
        s("2024-01-05 10:00:00"),
    );
    let id = item.id.unwrap();
    let updated = inv.update_fields(id, s("caja grande"), None, 9, 2).unwrap();
    assert_eq!(updated.id, Some(id));
    assert_eq!(updated.name, "caja grande");
    assert_eq!(updated.cantidad_necesaria, 9);
    assert_eq!(updated.cantidad_disponible, 2);
    assert_eq!(
        updated.image_path,
        Some(s("/data/inventory_images/img_7.png"))
    );
    assert_eq!(updated.created_at, item.created_at);
    assert_eq!(inv.list_all()[0], updated);
}

#[test]
fn update_with_image_replaces_image_path() {
    let mut inv = Inventory::new();
    let item = inv.add_at(
        s("caja"),
        Some(s("/old/img_1.png")),
        5,
        5,
        s("2024-01-05 10:00:00"),
    );
    let id = item.id.unwrap();
    let old_path = inv.image_path_of(id);
    assert_eq!(old_path, Some(s("/old/img_1.png")));
    let (updated, write) = inv
        .update(id, s("caja"), Some("aGVsbG8="), 5, 5, "/new")
        .unwrap();
    let write = write.unwrap();
    assert_eq!(updated.image_path, Some(write.path.clone()));
    assert!(write.path.starts_with("/new/img_"));
    assert_ne!(updated.image_path, Some(s("/old/img_1.png")));
}

#[test]
fn update_missing_id_is_a_persistence_error() {
    let mut inv = Inventory::new();
    inv.add_at(s("a"), None, 1, 1, s("2024-01-05 10:00:00"));
    let before = inv.list_all();
    let r = inv.update_fields(42, s("b"), None, 2, 2);
    assert_eq!(r.unwrap_err(), InvError::Persistence);
    assert_eq!(inv.list_all(), before);
}

#[test]
fn delete_removes_row_and_returns_image_path() {
    let mut inv = Inventory::new();
    let a = inv.add_at(
        s("a"),
        Some(s("/imgs/img_3.png")),
        1,
        1,
        s("2024-01-05 10:00:00"),
    );
    let b = inv.add_at(s("b"), None, 2, 2, s("2024-01-05 10:00:01"));
    let freed = inv.delete(a.id.unwrap());
    assert_eq!(freed, Some(s("/imgs/img_3.png")));
    let all = inv.list_all();
    assert_eq!(all.len(), 1);
    assert_eq!(all[0], b);
}

#[test]
fn delete_missing_id_is_a_no_op() {
    let mut inv = Inventory::new();
    inv.add_at(s("a"), None, 1, 1, s("2024-01-05 10:00:00"));
    let before = inv.list_all();
    let freed = inv.delete(99);
    assert_eq!(freed, None);
    assert_eq!(inv.list_all(), before);
}

#[test]
fn fix_image_paths_rewrites_only_present_filenames() {
    let mut inv = Inventory::new();
    let a = inv.add_at(
        s("a"),
        Some(s("/old/place/img_7.png")),
        1,
        1,
        s("2024-01-05 10:00:00"),
    );
    let b = inv.add_at(
        s("b"),
        Some(s("/old/place/img_9.png")),
        2,
        2,
        s("2024-01-05 10:00:01"),
    );
    let c = inv.add_at(s("c"), None, 3, 3, s("2024-01-05 10:00:02"));
    let present = vec![s("img_7.png"), s("otra.png")];
    let count = inv.fix_image_paths("/data/inventory_images", &present);
    assert_eq!(count, 1);
    let all = inv.list_all();
    assert_eq!(all[0].id, c.id);
    assert_eq!(all[0].image_path, None);
    assert_eq!(all[1].id, b.id);
    assert_eq!(all[1].image_path, Some(s("/old/place/img_9.png")));
    assert_eq!(all[2].id, a.id);
    assert_eq!(all[2].image_path, Some(s("/data/inventory_images/img_7.png")));
}

#[test]
fn fix_image_paths_rewrites_even_already_correct_paths() {
    let mut inv = Inventory::new();
    inv.add_at(
        s("a"),
        Some(s("/data/inventory_images/img_7.png")),
        1,
        1,
        s("2024-01-05 10:00:00"),
    );
    let present = vec![s("img_7.png")];
    let count = inv.fix_image_paths("/data/inventory_images", &present);
    assert_eq!(count, 1);
    assert_eq!(
        inv.list_all()[0].image_path,
        Some(s("/data/inventory_images/img_7.png"))
    );
}

#[test]
fn ids_grow_with_each_add() {
    let mut inv = Inventory::new();
    let a = inv.add_at(s("a"), None, 0, 0, s("2024-01-05 10:00:02"));
    let b = inv.add_at(s("b"), None, 0, 0, s("2024-01-05 10:00:00"));
    let c = inv.add_at(s("c"), None, 0, 0, s("2024-01-05 10:00:01"));
    assert_eq!(a.id, Some(1));
    assert_eq!(b.id, Some(2));
    assert_eq!(c.id, Some(3));
    assert_eq!(inv.len(), 3);
    assert!(!inv.at_capacity());
}
