use comprexor::staging::{fresh_staged_name, staged_file_name};

#[test]
fn distinct_tokens_give_distinct_staged_names() {
    let mut names: Vec<String> = Vec::new();
    for token in 0..64u64 {
        names.push(staged_file_name("./some/source", token));
    }
    for i in 0..names.len() {
        for j in 0..i {
            assert_ne!(names[i], names[j]);
        }
    }
}

#[test]
fn staged_names_have_the_fixed_format() {
    let name = staged_file_name("input.dat", 12345);
    assert!(name.ends_with("-12345-tar-gen.tar"));
    assert!(name.chars().all(|c| c.is_ascii_digit() || c == '-' || c == '.' || c.is_ascii_lowercase()));
    let fresh = fresh_staged_name("input.dat");
    assert!(fresh.ends_with("-tar-gen.tar"));
}

#[test]
fn fresh_names_differ_across_operations() {
    let a = fresh_staged_name("same/source");
    let b = fresh_staged_name("same/source");
    assert_ne!(a, b);
}

#[test]
fn staged_name_hash_depends_on_the_input() {
    let a = staged_file_name("first", 7);
    let b = staged_file_name("second", 7);
    assert_ne!(a, b);
}
