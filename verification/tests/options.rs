use cache_sim::parse_default;

#[test]
fn test_parse_default_parses() {
    let n: usize = parse_default(Some("42"), 7);
    assert_eq!(n, 42);
    let m: u64 = parse_default(Some("65536"), 0);
    assert_eq!(m, 65536);
}

#[test]
fn test_parse_default_falls_back() {
    let n: usize = parse_default(None, 7);
    assert_eq!(n, 7);
    let m: usize = parse_default(Some("not a number"), 512);
    assert_eq!(m, 512);
    let k: usize = parse_default(Some(""), 64);
    assert_eq!(k, 64);
}
