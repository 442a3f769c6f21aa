use sandbox_vfs::BindFS;

#[test]
fn test_path_translate() {
    let fs = BindFS::new("", b"/opt/part1");
    let real = fs.translate_path(b"/usr/bin/ls");
    assert_eq!(real, b"/opt/part1/usr/bin/ls".to_vec());
}

#[test]
fn translate_path_keeps_id_and_normalizes_separators() {
    let fs = BindFS::new("upper", b"/srv/root/");
    assert_eq!(fs.id(), "upper");
    assert_eq!(fs.translate_path(b"//a///b/"), b"/srv/root/a/b".to_vec());
    assert_eq!(fs.translate_path(b"/"), b"/srv/root/".to_vec());
    assert_eq!(fs.translate_path(b"/./x"), b"/srv/root/x".to_vec());
}
