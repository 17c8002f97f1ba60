use mcu_debug_helper::elf_items::FileTable;
use mcu_debug_helper::utils::{
    finish_path, prepare_decoded, prepare_path, CanonicalPath, PathStyle,
};

#[test]
fn uri_is_taken_off_and_percent_decoded() {
    assert_eq!(prepare_path("file:///tmp/a%20b.c", PathStyle::Posix), "/tmp/a b.c");
    assert_eq!(prepare_path("file:///tmp/%41%e2%82%ac", PathStyle::Posix), "/tmp/A\u{20ac}");
    assert_eq!(prepare_path("file:///tmp/50%", PathStyle::Posix), "/tmp/50%");
    assert_eq!(prepare_path("/tmp/a%20b.c", PathStyle::Posix), "/tmp/a%20b.c");
}

#[test]
fn uri_that_does_not_decode_keeps_its_rest() {
    assert_eq!(prepare_path("file:///tmp/%ff", PathStyle::Posix), "/tmp/%ff");
    assert_eq!(prepare_decoded("file:///tmp/x", None, PathStyle::Posix), "/tmp/x");
    assert_eq!(
        prepare_decoded("file:///tmp/x", Some("/other".to_string()), PathStyle::Posix),
        "/other"
    );
    assert_eq!(
        prepare_decoded("/tmp/x", Some("/other".to_string()), PathStyle::Posix),
        "/tmp/x"
    );
}

#[test]
fn uri_and_plain_name_are_prepared_alike() {
    assert_eq!(
        prepare_path("file:///home/u/src/main.c", PathStyle::Posix),
        prepare_path("/home/u/src/main.c", PathStyle::Posix)
    );
    assert_eq!(
        prepare_path("file:///C:/proj/main.c", PathStyle::Windows),
        prepare_path("C:/proj/main.c", PathStyle::Windows)
    );
    assert_eq!(prepare_path("file:///C:/proj/main.c", PathStyle::Windows), "C:/proj/main.c");
    assert_eq!(prepare_path("file:///C:/proj/main.c", PathStyle::Posix), "/C:/proj/main.c");
}

#[test]
fn wsl_mount_becomes_a_drive() {
    assert_eq!(prepare_path("/mnt/c/Users/x/a.c", PathStyle::Posix), "C:/Users/x/a.c");
    assert_eq!(prepare_path("/mnt/d", PathStyle::Windows), "D:/");
    assert_eq!(prepare_path("/mnt/d/", PathStyle::Windows), "D:/");
    assert_eq!(prepare_path("/mnt/1/x", PathStyle::Posix), "1:/x");
    assert_eq!(prepare_path("/mnt/cd/x", PathStyle::Posix), "/mnt/cd/x");
    assert_eq!(prepare_path("/mnt/", PathStyle::Posix), "/mnt/");
    assert_eq!(prepare_path("/mnt//x", PathStyle::Posix), "/mnt//x");
    assert_eq!(prepare_path("/mnt/\u{e9}/x", PathStyle::Posix), "/mnt/\u{e9}/x");
    assert_eq!(prepare_path("/mnta/c/x", PathStyle::Posix), "/mnta/c/x");
    assert_eq!(prepare_path("file:///mnt/e/a%20b", PathStyle::Posix), "E:/a b");
}

#[test]
fn finish_turns_backslashes_and_leaves_posix_names() {
    assert_eq!(finish_path("/home/u/src\\main.c", PathStyle::Posix), "/home/u/src/main.c");
    assert_eq!(finish_path("c:\\Users\\x", PathStyle::Posix), "c:/Users/x");
    assert_eq!(finish_path("//server/share/f", PathStyle::Posix), "//server/share/f");
    assert_eq!(finish_path("", PathStyle::Posix), "");
}

#[test]
fn finish_on_windows_puts_drive_and_unc_in_upper_case() {
    assert_eq!(finish_path("c:\\Users\\x\\a.c", PathStyle::Windows), "C:/Users/x/a.c");
    assert_eq!(finish_path("C:/Users/x", PathStyle::Windows), "C:/Users/x");
    assert_eq!(
        finish_path("\\\\server\\share\\Dir\\file.c", PathStyle::Windows),
        "//SERVER/SHARE/Dir/file.c"
    );
    assert_eq!(finish_path("//server", PathStyle::Windows), "//SERVER");
    assert_eq!(finish_path("//server/share", PathStyle::Windows), "//SERVER/SHARE");
    assert_eq!(finish_path("/single/slash", PathStyle::Windows), "/single/slash");
    assert_eq!(finish_path("1:", PathStyle::Windows), "1:");
}

#[test]
fn finish_twice_is_finish_once() {
    for style in [PathStyle::Posix, PathStyle::Windows] {
        for raw in [
            "c:\\Users\\x\\a.c",
            "\\\\server\\share\\Dir\\file.c",
            "/home/u/a.c",
            "//a/b/c/d",
            "z:",
            "",
            "rel\\ative",
        ] {
            let once = finish_path(raw, style);
            assert_eq!(finish_path(&once, style), once);
        }
    }
}

#[test]
fn canonical_path_holds_the_written_form() {
    let path = CanonicalPath::new("c:\\src\\main.c", PathStyle::Windows);
    assert_eq!(path.as_str(), "C:/src/main.c");
    assert_eq!(path.clone().as_str(), "C:/src/main.c");
}

#[test]
fn interning_gives_dense_ids_from_one_and_the_same_id_again() {
    let mut table = FileTable::new();
    let a = table.intern("/src/a.c", PathStyle::Posix);
    let b = table.intern("/src/b.c", PathStyle::Posix);
    let a_again = table.intern("/src/a.c", PathStyle::Posix);
    let c = table.intern("/src\\c.c", PathStyle::Posix);
    assert_eq!((a, b, a_again, c), (1, 2, 1, 3));
    assert_eq!(table.get_by_id(a).map(|s| s.as_str()), Some("/src/a.c"));
    assert_eq!(table.get_by_id(c).map(|s| s.as_str()), Some("/src/c.c"));
    assert!(table.get_by_id(0).is_none());
    assert!(table.get_by_id(4).is_none());
}

#[test]
fn interning_goes_by_the_written_form() {
    let mut table = FileTable::new();
    let one = table.intern("c:\\proj\\main.c", PathStyle::Windows);
    let two = table.intern("C:/proj/main.c", PathStyle::Windows);
    assert_eq!(one, two);
    assert_eq!(table.get_by_id(one).map(|s| s.as_str()), Some("C:/proj/main.c"));
    assert_eq!(table.get_by_path("C:/proj/main.c", PathStyle::Windows), Some(one));
    assert_eq!(table.get_by_path("c:\\proj\\main.c", PathStyle::Windows), Some(one));
    assert_eq!(table.get_by_path("c:\\proj\\other.c", PathStyle::Windows), None);
}
