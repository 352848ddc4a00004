use tasker::tags::normalize;

#[test]
fn normalize_basic_punctuation() {
    assert_eq!(normalize("Hello, World!"), "hello-world".to_string());
}

#[test]
fn normalize_trims_whitespace() {
    assert_eq!(normalize("   Hello, world!"), "hello-world".to_string());
}

#[test]
fn normalize_collapses_runs() {
    assert_eq!(normalize("a  --  b__c"), "a-b-c".to_string());
}

#[test]
fn normalize_keeps_digits() {
    assert_eq!(normalize("Test 1"), "test-1".to_string());
}

#[test]
fn normalize_empty_input() {
    assert_eq!(normalize(""), String::new());
}

#[test]
fn normalize_only_punctuation() {
    assert_eq!(normalize("!!! ???"), String::new());
}

#[test]
fn normalize_transliterates_unicode() {
    assert_eq!(normalize("Æ, ☣"), "ae-biohazard".to_string());
    assert_eq!(normalize("Hello, ❤ ;-)"), "hello-heart".to_string());
}

#[test]
fn normalize_is_idempotent_on_samples() {
    let samples = [
        "Hello, World!",
        "  --Weird__Text!!  ",
        "Æ, ☣",
        "already-canonical",
        "MiXeD CaSe 42",
        "",
    ];
    for s in samples {
        let once = normalize(s);
        let twice = normalize(&once);
        assert_eq!(twice, once);
    }
}

#[test]
fn normalize_agrees_with_slug_crate() {
    let samples = [
        "Hello, World ;-)",
        "   Hello, world!",
        "Hello, Æ, ☣",
        "Testing tags",
        "Yet Another Tag",
        "Test 1",
    ];
    for s in samples {
        assert_eq!(normalize(s), str_slug::slug(s));
    }
}
