use cipollino::assets::{AssetPtr, AssetsPanel};
use cipollino::text::{chars_of, compare_chars, stable_sort_indices};

#[test]
fn assets_panel_starts_without_rename() {
    assert!(AssetsPanel::new().editing_name.is_none());
}

#[test]
fn begin_rename_records_asset_and_name() {
    let mut panel = AssetsPanel::new();
    panel.begin_rename(AssetPtr::Graphic(3), "Walk cycle".to_string());
    assert_eq!(panel.editing_name, Some((AssetPtr::Graphic(3), "Walk cycle".to_string())));
}

#[test]
fn assets_sorted_by_lowercase_name() {
    let names = vec!["b".to_string(), "A".to_string(), "a".to_string()];
    assert_eq!(AssetsPanel::sort_asset_list(&names), vec![1, 2, 0]);
}

#[test]
fn asset_sort_ignores_case() {
    let names = vec!["a".to_string(), "B".to_string()];
    assert_eq!(AssetsPanel::sort_asset_list(&names), vec![0, 1]);
}

#[test]
fn asset_sort_of_nothing() {
    assert_eq!(AssetsPanel::sort_asset_list(&Vec::new()), Vec::<usize>::new());
}

#[test]
fn asset_sort_unicode_lowercase() {
    let names = vec!["Ábc".to_string(), "ább".to_string(), "Z".to_string()];
    assert_eq!(AssetsPanel::sort_asset_list(&names), vec![2, 1, 0]);
}

#[test]
fn file_assets_missing_block_moves() {
    // A missing file compares equal to every file, so no file moves past it.
    let names = vec![Some("b".to_string()), None, Some("A".to_string()), None];
    assert_eq!(AssetsPanel::sort_file_asset_list(&names), vec![0, 1, 2, 3]);
}

#[test]
fn file_assets_missing_first_stays_first() {
    let names = vec![None, Some("a".to_string())];
    assert_eq!(AssetsPanel::sort_file_asset_list(&names), vec![0, 1]);
}

#[test]
fn file_assets_found_by_lowercase_name() {
    let names = vec![Some("c".to_string()), Some("B".to_string()), Some("a".to_string()), None, Some("D".to_string()), Some("b".to_string())];
    assert_eq!(AssetsPanel::sort_file_asset_list(&names), vec![2, 1, 0, 3, 5, 4]);
}

#[test]
fn compare_chars_orders_by_code_point() {
    assert_eq!(compare_chars(&vec!['a', 'b'], &vec!['a', 'c']), -1);
    assert_eq!(compare_chars(&vec!['a', 'b'], &vec!['a']), 1);
    assert_eq!(compare_chars(&vec!['a'], &vec!['a']), 0);
    assert_eq!(compare_chars(&vec![], &vec!['a']), -1);
}

#[test]
fn chars_of_splits_characters() {
    assert_eq!(chars_of("añb"), vec!['a', 'ñ', 'b']);
}

#[test]
fn stable_sort_keeps_equal_keys_in_order() {
    let keys = vec![vec!['b'], vec!['a'], vec!['b'], vec!['a']];
    assert_eq!(stable_sort_indices(&keys, &vec![0, 1, 2, 3]), vec![1, 3, 0, 2]);
    assert_eq!(stable_sort_indices(&keys, &vec![0, 2, 3]), vec![3, 0, 2]);
}

#[test]
fn commit_rename_gives_new_name() {
    let mut panel = AssetsPanel::new();
    panel.begin_rename(AssetPtr::Graphic(3), "Walk".to_string());
    assert_eq!(panel.commit_rename(), Some((AssetPtr::Graphic(3), "Walk".to_string())));
    assert!(panel.editing_name.is_none());
}

#[test]
fn commit_rename_drops_empty_name() {
    let mut panel = AssetsPanel::new();
    panel.begin_rename(AssetPtr::Folder(1), String::new());
    assert_eq!(panel.commit_rename(), None);
    assert!(panel.editing_name.is_none());
}
