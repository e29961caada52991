use crit_core::paths::AccessPath;
use crit_core::state::{Origin, Origins, TaintState, Witness};

fn w(byte: u32) -> Witness {
    Witness { write_byte: byte, steps: vec![] }
}

fn origins(entries: &[(Origin, u32)]) -> Origins {
    let mut o = Origins::new();
    for (origin, b) in entries {
        o.insert(*origin, w(*b));
    }
    o
}

#[test]
fn same_scope_respects_write_order() {
    let mut st = TaintState::new();
    let p = AccessPath::base_only("v".to_string());
    st.bind(0, &p, &origins(&[(Origin::Source(0), 100)]));
    // use before the write: not visible.
    assert!(st.visible(0, &[0], &p, 50).is_empty());
    // use after the write: visible.
    assert_eq!(st.visible(0, &[0], &p, 150).len(), 1);
}

#[test]
fn ancestor_scope_ignores_order() {
    let mut st = TaintState::new();
    let p = AccessPath::base_only("x".to_string());
    st.bind(0, &p, &origins(&[(Origin::Source(0), 200)]));
    // child scope 1 whose chain is [1, 0]; parent taint visible regardless
    // of the earlier use byte.
    assert_eq!(st.visible(1, &[1, 0], &p, 50).len(), 1);
}

#[test]
fn origin_sets_coexist() {
    let mut st = TaintState::new();
    let p = AccessPath::base_only("n".to_string());
    st.bind(0, &p, &origins(&[(Origin::Param { scope: 0, index: 0 }, 10)]));
    let added = st.bind(0, &p, &origins(&[(Origin::Source(0), 20)]));
    assert!(added, "adding a distinct origin is a change");
    let vis = st.visible(0, &[0], &p, 100);
    assert_eq!(vis.len(), 2, "Param and Source coexist");
}

#[test]
fn field_sensitive_disjoint() {
    let mut st = TaintState::new();
    let oa = AccessPath::parse("o.a").unwrap();
    st.bind(0, &oa, &origins(&[(Origin::Source(0), 10)]));
    // reading o.b is not tainted...
    assert!(st
        .visible(0, &[0], &AccessPath::parse("o.b").unwrap(), 100)
        .is_empty());
    // ...but reading the whole object o is (extension rule).
    assert_eq!(
        st.visible(0, &[0], &AccessPath::base_only("o".to_string()), 100).len(),
        1
    );
}

#[test]
fn rebinding_the_same_origin_is_no_change() {
    let mut st = TaintState::new();
    let p = AccessPath::base_only("v".to_string());
    assert!(st.bind(0, &p, &origins(&[(Origin::Source(3), 10)])));
    assert!(!st.bind(0, &p, &origins(&[(Origin::Source(3), 10)])));
    assert_eq!(st.visible(0, &[0], &p, 11).len(), 1);
}

#[test]
fn binding_nothing_to_a_new_cell_is_no_change() {
    let mut st = TaintState::new();
    let p = AccessPath::base_only("z".to_string());
    assert!(!st.bind(0, &p, &Origins::new()));
    assert!(st.visible(0, &[0], &p, 100).is_empty());
    assert!(st.bind(0, &p, &origins(&[(Origin::Source(1), 10)])));
}

#[test]
fn the_earliest_witness_of_an_origin_wins() {
    let mut st = TaintState::new();
    let p = AccessPath::base_only("v".to_string());
    st.bind(0, &p, &origins(&[(Origin::Source(0), 50)]));
    st.bind(1, &p, &origins(&[(Origin::Source(0), 20)]));
    let v = st.visible(0, &[0, 1], &p, 100);
    assert_eq!(v.entries.len(), 1);
    assert_eq!(v.entries[0].0, Origin::Source(0));
    assert_eq!(v.entries[0].1.write_byte, 20);
}

#[test]
fn rebinding_keeps_what_was_visible() {
    let mut st = TaintState::new();
    let p = AccessPath::base_only("w".to_string());
    st.bind(0, &p, &origins(&[(Origin::Source(2), 30)]));
    assert_eq!(st.visible(0, &[0], &p, 40).len(), 1);
    st.bind(0, &p, &origins(&[(Origin::Source(5), 35)]));
    let v = st.visible(0, &[0], &p, 40);
    assert_eq!(v.len(), 2);
    assert!(v.entries.iter().any(|(o, _)| *o == Origin::Source(2)));
}
