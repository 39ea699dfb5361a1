use childsize::Processor;

#[test]
fn test_key_long() {
    let path = "/test/1/2/3/4/5.txt";
    let r = Processor::key(path, "/test/");
    assert!(r.is_some());
    assert_eq!(r.unwrap(), "/test/1");
}

#[test]
fn test_key_normal() {
    let path = "/test/1/5.txt";
    let r = Processor::key(path, "/test/");
    assert!(r.is_some());
    assert_eq!(r.unwrap(), "/test/1");
}

#[test]
fn test_key_no_subdir() {
    let path = "/test/5.txt";
    let r = Processor::key(path, "/test/");
    assert!(r.is_some());
    assert_eq!(r.unwrap(), "/test/");
}

#[test]
fn test_key_not_rooted() {
    let path = "/test/1/5.txt";
    let r = Processor::key(path, "/test2/");
    assert!(r.is_none());
}

#[test]
fn key_root_without_trailing_separator() {
    assert_eq!(Processor::key("/r/a/1.txt", "/r").unwrap(), "/r/a");
    assert_eq!(Processor::key("/r/1.txt", "/r").unwrap(), "/r");
}

#[test]
fn key_compares_whole_components() {
    assert!(Processor::key("/testing/a/1.txt", "/test").is_none());
    assert!(Processor::key("a/1.txt", "/a").is_none());
}

#[test]
fn key_skips_empty_and_dot_components() {
    assert_eq!(Processor::key("/r//./a/b/1.txt", "/r/").unwrap(), "/r/a");
    assert_eq!(Processor::key("./a/1.txt", ".").unwrap(), "./a");
    assert_eq!(Processor::key("./1.txt", ".").unwrap(), ".");
}

#[test]
fn key_is_repeatable() {
    let a = Processor::key("/r/x/y/z.txt", "/r");
    let b = Processor::key("/r/x/y/z.txt", "/r");
    assert_eq!(a, b);
    assert_eq!(a.unwrap(), "/r/x");
}

#[test]
fn key_of_non_ascii_names() {
    assert_eq!(Processor::key("/r/ünï/çode/f.txt", "/r").unwrap(), "/r/ünï");
}
