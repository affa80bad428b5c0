use std::path::PathBuf;

use sayrat::codec::CodecError;
use sayrat::desktop::{is_desktop_file_name, stable_id};
use sayrat::indexer::{AppIndex, DesktopSource, Gathered, IndexError, IndexOperation};

fn index() -> AppIndex {
    AppIndex::from_parts(PathBuf::from("/tmp/sayrat/index.redb"), vec![PathBuf::from("/apps")])
}

fn source(path: &str, content: &str) -> DesktopSource {
    DesktopSource { path: String::from(path), content: String::from(content) }
}

fn rescan(index: &AppIndex, files: Vec<DesktopSource>) -> Vec<u8> {
    index
        .apply(&IndexOperation::FullRescan, Gathered::Scanned(files), 1_700_000_000)
        .unwrap_or_else(|err| panic!("rescan: {err:?}"))
}

#[test]
fn synthetic_desktop_files_are_indexed() {
    let index = index();
    let store = rescan(
        &index,
        vec![
            source(
                "/apps/one.desktop",
                "[Desktop Entry]\nType=Application\nName=One\nComment=First\nExec=one\nIcon=one\n",
            ),
            source(
                "/apps/two.desktop",
                "[Desktop Entry]\nType=Application\nName=Two\nGenericName=Second\nExec=two\n",
            ),
        ],
    );
    let (entries, more) = index.list_entries(&store, 10).unwrap_or_else(|err| panic!("list: {err:?}"));
    assert!(!more);
    assert_eq!(entries.len(), 2);
    assert!(entries.iter().any(|entry| entry.name == "One"));
    assert!(entries.iter().any(|entry| entry.name == "Two"));
}

#[test]
fn store_image_layout() {
    let index = index();
    let store = rescan(&index, vec![]);
    let mut want = b"SRIDX001".to_vec();
    want.extend_from_slice(&1u64.to_le_bytes());
    want.extend_from_slice(&1_700_000_000u64.to_le_bytes());
    want.extend_from_slice(&0u64.to_le_bytes());
    assert_eq!(store, want);
    let (entries, more) = index.list_entries(&store, 5).unwrap();
    assert!(entries.is_empty());
    assert!(!more);
}

#[test]
fn listing_is_in_id_order_and_capped() {
    let index = index();
    let files: Vec<DesktopSource> = (0..6)
        .map(|i| {
            source(
                &format!("/apps/app{i}.desktop"),
                &format!("[Desktop Entry]\nType=Application\nName=App {i}\n"),
            )
        })
        .collect();
    let mut ids: Vec<u64> = (0..6).map(|i| stable_id(&format!("/apps/app{i}.desktop"))).collect();
    ids.sort();
    let store = rescan(&index, files);
    let (entries, more) = index.list_entries(&store, 4).unwrap();
    assert!(more);
    assert_eq!(entries.iter().map(|e| e.id).collect::<Vec<_>>(), ids[..4].to_vec());
    let (entries, more) = index.list_entries(&store, 6).unwrap();
    assert!(!more);
    assert_eq!(entries.len(), 6);
    let (entries, more) = index.list_entries(&store, 0).unwrap();
    assert!(entries.is_empty());
    assert!(more);
}

#[test]
fn incremental_update_inserts_replaces_and_removes() {
    let index = index();
    let path = "/apps/new.desktop";
    let store = rescan(&index, vec![]);
    let op = IndexOperation::IncrementalUpdate(PathBuf::from(path));
    let add = |store: Vec<u8>, content: Option<&str>| {
        index
            .apply(
                &op,
                Gathered::Changed {
                    store,
                    path: String::from(path),
                    file_name: Some(String::from("new.desktop")),
                    content: content.map(String::from),
                },
                7,
            )
            .unwrap()
    };
    let text = "[Desktop Entry]\nType=Application\nName=New\n";
    let once = add(store, Some(text));
    let twice = add(once.clone(), Some(text));
    assert_eq!(once, twice);
    let (entries, _) = index.list_entries(&once, 10).unwrap();
    assert_eq!(entries.len(), 1);
    assert_eq!(entries[0].id, stable_id(path));
    assert_eq!(entries[0].name, "New");
    let renamed = add(once, Some("[Desktop Entry]\nType=Application\nName=Renamed\n"));
    let (entries, _) = index.list_entries(&renamed, 10).unwrap();
    assert_eq!(entries[0].name, "Renamed");
    let hidden = add(renamed.clone(), Some("[Desktop Entry]\nType=Application\nName=R\nHidden=true\n"));
    assert!(index.list_entries(&hidden, 10).unwrap().0.is_empty());
    let gone = add(renamed, None);
    assert!(index.list_entries(&gone, 10).unwrap().0.is_empty());
}

#[test]
fn update_of_a_non_desktop_file_removes_its_id() {
    let index = index();
    let path = "/apps/new.desktop";
    let op = IndexOperation::IncrementalUpdate(PathBuf::from(path));
    let text = "[Desktop Entry]\nType=Application\nName=New\n";
    let store = rescan(&index, vec![source(path, text)]);
    assert_eq!(index.list_entries(&store, 10).unwrap().0.len(), 1);
    let changed = Gathered::Changed {
        store: store.clone(),
        path: String::from(path),
        file_name: Some(String::from(".desktop")),
        content: Some(String::from(text)),
    };
    let after = index.apply(&op, changed, 7).unwrap();
    assert!(index.list_entries(&after, 10).unwrap().0.is_empty());
    let nameless = Gathered::Changed {
        store,
        path: String::from(path),
        file_name: None,
        content: Some(String::from(text)),
    };
    let after = index.apply(&op, nameless, 7).unwrap();
    assert!(index.list_entries(&after, 10).unwrap().0.is_empty());
}

#[test]
fn desktop_file_names_have_the_desktop_extension() {
    assert!(is_desktop_file_name(Some("firefox.desktop")));
    assert!(is_desktop_file_name(Some("..desktop")));
    assert!(is_desktop_file_name(Some("a.b.desktop")));
    assert!(!is_desktop_file_name(Some(".desktop")));
    assert!(!is_desktop_file_name(Some("desktop")));
    assert!(!is_desktop_file_name(Some("firefox.Desktop")));
    assert!(!is_desktop_file_name(Some("firefox.desktop~")));
    assert!(!is_desktop_file_name(None));
}

#[test]
fn invalid_stores_are_rejected() {
    let index = index();
    let good = rescan(&index, vec![source("/a.desktop", "[Desktop Entry]\nType=Application\nName=A\n")]);
    let mut bad_magic = good.clone();
    bad_magic[0] = b'X';
    assert!(matches!(index.list_entries(&bad_magic, 1), Err(IndexError::InvalidStore("bad index magic"))));
    let mut bad_schema = good.clone();
    bad_schema[8] = 2;
    assert!(matches!(index.list_entries(&bad_schema, 1), Err(IndexError::InvalidStore("unsupported schema"))));
    assert!(matches!(index.list_entries(&good[..20], 1), Err(IndexError::Io(_))));
    assert!(matches!(index.list_entries(&good[..good.len() - 1], 1), Err(IndexError::Codec(CodecError::Io(_)))));
    let mut huge = good[..32].to_vec();
    huge.extend_from_slice(&(2u32 * 1024 * 1024).to_le_bytes());
    assert!(matches!(index.list_entries(&huge, 1), Err(IndexError::Codec(CodecError::FrameTooLarge { len: 2097152 }))));
}

#[test]
fn handle_keeps_its_paths() {
    let index = index();
    assert_eq!(index.db_path(), &PathBuf::from("/tmp/sayrat/index.redb"));
    assert_eq!(index.app_dirs(), &vec![PathBuf::from("/apps")]);
}
