use aftp::utils::{cannonicalise, extract_extension, rfind_utf8, trim};

fn segs(parts: &[&str]) -> Vec<String> {
    parts.iter().map(|s| s.to_string()).collect()
}

#[test]
fn canonicalize_empty_is_empty() {
    let out = cannonicalise(&segs(&[]));
    assert!(out.is_empty());
}

#[test]
fn canonicalize_resolves_parent_steps() {
    let out = cannonicalise(&segs(&["a", "..", "b"]));
    assert_eq!(out, segs(&["b"]));
}

#[test]
fn canonicalize_clamps_at_the_bottom() {
    let out = cannonicalise(&segs(&["..", "..", "a"]));
    assert_eq!(out, segs(&["a"]));
}

#[test]
fn canonicalize_trims_and_drops_empties() {
    let out = cannonicalise(&segs(&[" a ", " ", ".", "b"]));
    assert_eq!(out, segs(&["a", "b"]));
}

#[test]
fn canonicalize_keeps_plain_names_verbatim() {
    let out = cannonicalise(&segs(&["x", "y z", "w.txt"]));
    assert_eq!(out, segs(&["x", "y z", "w.txt"]));
}

#[test]
fn trim_strips_both_ends() {
    assert_eq!(trim("  hello \t"), "hello");
    assert_eq!(trim("\r\n"), "");
    assert_eq!(trim("inner space kept"), "inner space kept");
}

#[test]
fn trim_agrees_with_the_standard_library() {
    for s in ["\u{00A0}a\u{00A0}", "\u{2003}x y\u{3000}", "\u{85}", "a\u{200A}b"] {
        assert_eq!(trim(s), s.trim());
    }
}

#[test]
fn rfind_utf8_finds_last_occurrence() {
    assert_eq!(rfind_utf8("a.b.c", '.'), Some(3));
    assert_eq!(rfind_utf8("abc", '.'), None);
    assert_eq!(rfind_utf8("x", 'x'), Some(0));
}

#[test]
fn extract_extension_takes_from_last_dot() {
    assert_eq!(extract_extension("a.txt"), ".txt");
    assert_eq!(extract_extension("archive.tar.gz"), ".gz");
    assert_eq!(extract_extension("noext"), "");
    assert_eq!(extract_extension("trailing."), ".");
}
