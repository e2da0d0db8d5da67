use server_core::templating::{find_repeated_byte, find_template, parse, FileEntry, ParsingError};

fn entry(path: &str, content: &str) -> FileEntry {
    FileEntry { path: path.as_bytes().to_vec(), content: content.as_bytes().to_vec() }
}

#[test]
fn test_parse_multiple_templates() {
    let files = vec![
        entry(
            "./test_templates_1/test_template.txt",
            "Some template { sike } i guess this is a template this time {{../test_template2.txt}} and {{../test_template3.txt}} then } } }} this { {{ stuff over here",
        ),
        entry("./test_templates_1/test_template2.txt", "some random text {{../test_template3.txt}}"),
        entry("./test_templates_1/test_template3.txt", "or other shit"),
    ];
    let res = parse(&files, &b"./test_templates_1/test_template.txt".to_vec()).unwrap();
    assert_eq!(
        "Some template { sike } i guess this is a template this time some random text or other shit and or other shit then } } }} this { {{ stuff over here",
        std::str::from_utf8(&res).unwrap()
    );
}

#[test]
fn test_parse_no_templates() {
    let files = vec![
        entry(
            "./test_templates_2/test_template.txt",
            "Some template { sike } i guess then } } }} this { {{ stuff over here",
        ),
        entry("./test_templates_2/test_template2.txt", ""),
    ];
    let res_no_template = parse(&files, &b"./test_templates_2/test_template.txt".to_vec()).unwrap();
    assert_eq!(
        b"Some template { sike } i guess then } } }} this { {{ stuff over here".to_vec(),
        res_no_template
    );

    let res_empty = parse(&files, &b"./test_templates_2/test_template2.txt".to_vec()).unwrap();
    assert_eq!(b"".to_vec(), res_empty);
}

#[test]
fn test_parse_missing_root() {
    let files = vec![entry("./a.txt", "hello")];
    match parse(&files, &b"./b.txt".to_vec()) {
        Err(ParsingError::IOError(p)) => assert_eq!(b"./b.txt".to_vec(), p),
        other => panic!("expected a missing-file error, got {:?}", other),
    }
}

#[test]
fn test_parse_missing_include() {
    let files = vec![entry("./dir/a.txt", "see {{../nowhere.txt}} here")];
    match parse(&files, &b"./dir/a.txt".to_vec()) {
        Err(ParsingError::IOError(p)) => {
            assert_eq!(b"./dir/a.txt/../nowhere.txt".to_vec(), p)
        },
        other => panic!("expected a missing-file error, got {:?}", other),
    }
}

#[test]
fn test_parse_recursive_include() {
    let files = vec![
        entry("./dir/a.txt", "a then {{../b.txt}}"),
        entry("./dir/b.txt", "b then {{../a.txt}}"),
    ];
    match parse(&files, &b"./dir/a.txt".to_vec()) {
        Err(ParsingError::RecursivePath(p)) => {
            assert_eq!(b"./dir/b.txt/../a.txt".to_vec(), p)
        },
        other => panic!("expected a cycle error, got {:?}", other),
    }
}

#[test]
fn test_shared_include_is_no_cycle() {
    let files = vec![
        entry("./d/root.txt", "{{../leaf.txt}}+{{../mid.txt}}"),
        entry("./d/mid.txt", "[{{../leaf.txt}}]"),
        entry("./d/leaf.txt", "x"),
    ];
    let res = parse(&files, &b"./d/root.txt".to_vec()).unwrap();
    assert_eq!(b"x+[x]".to_vec(), res);
}

#[test]
fn test_unclosed_template_kept_verbatim() {
    let files = vec![entry("./a.txt", "start {{ never closed")];
    let res = parse(&files, &b"./a.txt".to_vec()).unwrap();
    assert_eq!(b"start {{ never closed".to_vec(), res);
}

#[test]
fn test_find_repeated_byte() {
    let content = b"x{a{{b}}".to_vec();
    assert_eq!(Some(3), find_repeated_byte(&content, 0, b'{'));
    assert_eq!(Some(6), find_repeated_byte(&content, 0, b'}'));
    assert_eq!(None, find_repeated_byte(&content, 7, b'}'));
    assert_eq!(None, find_repeated_byte(&content, 0, b'z'));
    assert_eq!(None, find_repeated_byte(&Vec::new(), 0, b'{'));
}

#[test]
fn test_find_template() {
    let content = b"ab{{p}}cd".to_vec();
    assert_eq!(Some((2, 5)), find_template(&content, 0));
    assert_eq!(None, find_template(&content, 3));
    assert_eq!(None, find_template(&b"no braces".to_vec(), 0));
    assert_eq!(None, find_template(&b"open {{ only".to_vec(), 0));
}
