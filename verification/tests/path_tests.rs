use file_organizer::path::FilePath;

#[test]
fn test() {
    assert_eq!("./test/c", &FilePath::from("./test/c").get_path());
    assert_eq!("./test/c", &FilePath::from("/test\\c").get_path());
    assert_eq!(
        "./c",
        &FilePath::from("/test\\c")
            .cut(&FilePath::from("test"))
            .get_path()
    );
    assert_eq!(
        "./d",
        &FilePath::from("/a/b/c/d")
            .cut(&FilePath::from("c"))
            .get_path()
    );
    let mut fp1 = FilePath::from("/a/b");
    fp1.append(&FilePath::from("c/d.txt"));
    assert_eq!("./a/b/c/d.txt", &fp1.get_path());
}

#[test]
fn path_name_and_pop() {
    let mut p = FilePath::from("a/b/c.txt");
    assert_eq!(p.get_name(), "c.txt");
    p.pop();
    assert_eq!(p.get_path(), "./a/b");
    assert_eq!(p.as_string(), "./a/b");
}

#[test]
fn path_drops_dots_and_empties() {
    assert_eq!(FilePath::from("././/a//b/.").get_path(), "./a/b");
    assert_eq!(FilePath::from("").get_path(), "./");
}

#[test]
fn path_cut_without_match_is_unchanged() {
    let p = FilePath::from("a/b/c").cut(&FilePath::from("zzz"));
    assert_eq!(p.get_path(), "./a/b/c");
}
