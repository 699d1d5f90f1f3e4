use rocket::actions::copy_action::CopyAction;
use rocket::error_modal::ErrorModal;
use rocket::lang_string::{LangKeys, LangString, Languages};
use rocket::path_manager::PathManager;
use rocket::search_manager::ListedEntry;
use rocket::size_format::convert_bytes_size_to_human;

fn s(x: &str) -> String {
    x.to_string()
}

#[test]
fn strings_in_each_language() {
    let en = LangString::new();
    assert_eq!(en.get(LangKeys::GoBack), "Go back");
    assert_eq!(en.get(LangKeys::NothingSelected), "No file is selected.");
    assert_eq!(en.get(LangKeys::ModifiedAt), "Modified at: ");
    let ro = LangString::from(Languages::Romanian);
    assert_eq!(ro.get(LangKeys::GoForward), "Înainte");
    assert_eq!(ro.get(LangKeys::DeletedFolder), "Folderul a fost șters.");
    assert_eq!(ro.get(LangKeys::EmptyFolder), "Folderul este gol.");
}

#[test]
fn byte_sizes_in_units() {
    assert_eq!(convert_bytes_size_to_human(0), "0 B");
    assert_eq!(convert_bytes_size_to_human(1023), "1023 B");
    assert_eq!(convert_bytes_size_to_human(1024), "1 KiB");
    assert_eq!(convert_bytes_size_to_human(1536), "1 KiB");
    assert_eq!(convert_bytes_size_to_human(5 * 1024 * 1024 + 7), "5 MiB");
    assert_eq!(convert_bytes_size_to_human(3 * 1024 * 1024 * 1024), "3 GiB");
    assert_eq!(convert_bytes_size_to_human(1024u64.pow(4) * 12), "12 TiB");
    assert_eq!(convert_bytes_size_to_human(u64::MAX), "16777215 TiB");
}

#[test]
fn error_modal_setters() {
    let mut m = ErrorModal::new();
    assert!(!m.visible);
    m.set_title_and_caption(&s("Oops"), &s("It broke"));
    m.set_visible(true);
    assert_eq!(m.title, "Oops");
    assert_eq!(m.caption, "It broke");
    assert!(m.visible);
    m.set_caption(&s("Again"));
    m.set_title(&s("Hm"));
    assert_eq!((m.title.as_str(), m.caption.as_str()), ("Hm", "Again"));
}

#[test]
fn copy_action_collects_files() {
    let mut c = CopyAction::new();
    c.upload_files(&vec![s("/a"), s("/b")]);
    c.upload_files(&vec![s("/c")]);
    c.copy_to(&s("/dest"));
    assert_eq!(c.files, vec![s("/a"), s("/b"), s("/c")]);
    assert_eq!(c.destination, Some(s("/dest")));
}

#[test]
fn listing_puts_directories_first_in_order() {
    let mut p = PathManager::new(&s("/home/u"));
    assert!(p.update_folder_content);
    let e = |n: &str, d: bool| ListedEntry { path: format!("/home/u/{}", n), name: n.to_string(), is_dir: d };
    p.fill_directory_content(Some(vec![e("zeta.txt", false), e("beta", true), e("Alpha.md", false), e("alpha", true), e("b", false)]));
    assert!(!p.update_folder_content);
    assert!(!p.deleted_folder);
    assert_eq!(
        p.directory_content,
        vec![s("/home/u/alpha"), s("/home/u/beta"), s("/home/u/Alpha.md"), s("/home/u/b"), s("/home/u/zeta.txt")]
    );
    p.fill_directory_content(None);
    assert!(p.deleted_folder);
    assert!(p.directory_content.is_empty());
}

#[test]
fn history_back_and_forward() {
    let mut p = PathManager::new(&s("/home"));
    assert!(!p.go_back());
    p.update_current_directory(&s("/home/a"));
    p.update_current_directory(&s("/home/a/b"));
    assert_eq!(p.previous_paths, vec![s("/home"), s("/home/a")]);
    assert!(p.go_back());
    assert_eq!(p.current_path, "/home/a");
    assert_eq!(p.next_paths, vec![s("/home/a/b")]);
    assert!(p.go_forward());
    assert_eq!(p.current_path, "/home/a/b");
    assert!(!p.go_forward());
    assert_eq!(p.default_path, "/home");
}
