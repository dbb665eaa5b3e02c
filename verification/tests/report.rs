//! What a refused flatten says.

use layered::report::{clash_message, decimal, describe_conflicts, RenderedConflict};
use layered::scan::ScanError;

fn rendered(n: usize) -> RenderedConflict {
    RenderedConflict {
        relation: "rec".to_string(),
        key: format!("[{n}]"),
        existing: "[\"old\"]".to_string(),
        incoming: "[\"new\"]".to_string(),
    }
}

#[test]
fn numbers_are_written_in_decimal() {
    assert_eq!(decimal(0), "0");
    assert_eq!(decimal(9), "9");
    assert_eq!(decimal(10), "10");
    assert_eq!(decimal(90_817), "90817");
    assert_eq!(decimal(usize::MAX), usize::MAX.to_string());
}

#[test]
fn a_few_conflicts_are_all_named() {
    let msg = describe_conflicts(&[rendered(0), rendered(1)]);
    assert_eq!(
        msg,
        "flatten aborted: 2 key(s) collide — the destination already holds a different value \
         under a key the view asserts\
         \n  rec [0]: destination [\"old\"], view [\"new\"]\
         \n  rec [1]: destination [\"old\"], view [\"new\"]"
    );
}

#[test]
fn many_conflicts_are_capped_and_counted() {
    let all: Vec<_> = (0..18).map(rendered).collect();
    let msg = describe_conflicts(&all);
    assert!(msg.starts_with("flatten aborted: 18 key(s) collide"));
    assert_eq!(msg.matches("destination [").count(), 5);
    assert!(msg.contains("rec [4]:") && !msg.contains("rec [5]:"));
    assert!(msg.ends_with("\n  ... and 13 more; `flatten_plan` reports every one"));
    assert!(!describe_conflicts(&all[..5]).contains("more"));
    assert!(describe_conflicts(&all[..6]).contains("... and 1 more"));
}

#[test]
fn errors_name_what_stood_in_the_way() {
    assert_eq!(
        ScanError::Plain { relation: "r".to_string() }.message(),
        "cannot flatten: relation 'r' has no validity column, and the source layer holds rows \
         for it"
    );
    assert_eq!(
        ScanError::Unversioned { relation: "r".to_string() }.message(),
        "relation 'r' has no validity but holds rows in a view being flattened; a relation \
         without one cannot express a cross-layer retraction"
    );
    assert_eq!(
        clash_message("work"),
        "cannot flatten: layer 'work' is both the source of this flatten and the destination's \
         top layer"
    );
}
