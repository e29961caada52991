use crit_core::paths::{AccessPath, MAX_PATH_DEPTH};

#[test]
fn parses_chains_and_rejects_complex() {
    assert_eq!(AccessPath::parse("req").unwrap().base, "req");
    let p = AccessPath::parse("req.query.id").unwrap();
    assert_eq!(p.base, "req");
    assert_eq!(p.fields, vec!["query", "id"]);
    assert!(AccessPath::parse("o[i]").is_none());
    assert!(AccessPath::parse("a + b").is_none());
    assert!(AccessPath::parse("").is_none());
}

#[test]
fn depth_is_capped() {
    let p = AccessPath::parse("a.b.c.d.e").unwrap();
    assert_eq!(p.fields.len(), MAX_PATH_DEPTH);
    assert!(p.truncated);
}

#[test]
fn prefix_and_extension_overlap() {
    let o = AccessPath::base_only("o".to_string());
    let ov = AccessPath::parse("o.v").unwrap();
    let ow = AccessPath::parse("o.w").unwrap();
    assert!(o.overlaps(&ov), "o taints o.v (prefix)");
    assert!(ov.overlaps(&o), "o.v reaches read of o (extension)");
    assert!(!ov.overlaps(&ow), "o.v and o.w are disjoint");
    let other = AccessPath::base_only("p".to_string());
    assert!(!o.overlaps(&other));
}

#[test]
fn overlap_is_symmetric_on_examples() {
    let a = AccessPath::parse("req.body").unwrap();
    let b = AccessPath::parse("req.body.name").unwrap();
    let c = AccessPath::parse("res").unwrap();
    assert_eq!(a.overlaps(&b), b.overlaps(&a));
    assert_eq!(a.overlaps(&c), c.overlaps(&a));
    assert!(a.overlaps(&b));
    assert!(!a.overlaps(&c));
}

#[test]
fn shallow_paths_are_not_truncated() {
    let p = AccessPath::parse("a.b.c").unwrap();
    assert_eq!(p.fields, vec!["b", "c"]);
    assert!(!p.truncated);
    assert!(AccessPath::parse("a..b").is_none());
    assert!(AccessPath::parse("1a").is_none());
}

#[test]
fn a_trimmed_identifier_chain_parses_segment_by_segment() {
    let p = AccessPath::parse("  $req._b.c1.d.e \n").unwrap();
    assert_eq!(p.base, "$req");
    assert_eq!(p.fields, vec!["_b", "c1", "d"]);
    assert!(p.truncated);
    assert!(AccessPath::parse("a..b").is_none());
    assert!(AccessPath::parse("1a.b").is_none());
    assert!(AccessPath::parse("a.b.").is_none());
    assert!(AccessPath::parse("   ").is_none());
    assert_eq!(AccessPath::parse("é.ß").unwrap().fields, vec!["ß"]);
}
