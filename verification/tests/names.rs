use std::collections::hash_map::DefaultHasher;
use std::hash::{Hash, Hasher};

use arcstr::{ArcStr, Substr};
use component_test::marks::{Mark, Marks, MarksError};
use component_test::name::{
    const_valid_name, const_valid_tag, is_under, is_wit_label, normalize_segment, CaseName,
    MAX_SEGMENT_LEN,
};
use component_test::tags::{
    named_features, unpaired_positive_features, Tag, Tags, TagsError,
};

#[test]
fn valid_names() {
    for n in [
        "a",
        "sample/math/add",
        "group/source/case-375",
        "alg/wycheproof/0x1a2b_16384.v2",
        "a-b/c1/leaf",
        "sha256-2048/leaf",
        "rsassa-pkcs1-v15-sha256-2048/wycheproof/tc1",
    ] {
        CaseName::parse(n).unwrap_or_else(|e| panic!("{n}: {}", e.to_string()));
    }
}

#[test]
fn invalid_names() {
    // empty / structure
    assert!(CaseName::parse("").is_err());
    assert!(CaseName::parse("/a").is_err());
    assert!(CaseName::parse("a/").is_err());
    assert!(CaseName::parse("a//b").is_err());
    // charset
    assert!(CaseName::parse("A/b").is_err());
    assert!(CaseName::parse("a/b c").is_err());
    assert!(CaseName::parse("a/б").is_err());
    // dot segments
    assert!(CaseName::parse("./a").is_err());
    assert!(CaseName::parse("a/../b").is_err());
    // non-leaf must be WIT label
    assert!(CaseName::parse("375/leaf").is_err());
    assert!(CaseName::parse("a_b/leaf").is_err());
    assert!(CaseName::parse("a.b/leaf").is_err());
    assert!(CaseName::parse("-a/leaf").is_err());
    assert!(CaseName::parse("a-/leaf").is_err());
    // ...but all are fine as the leaf
    assert!(CaseName::parse("a/375").is_ok());
    assert!(CaseName::parse("a/a_b").is_ok());
    assert!(CaseName::parse("a/a.b").is_ok());
    // length caps
    let long_seg = "a".repeat(MAX_SEGMENT_LEN + 1);
    assert!(CaseName::parse(&long_seg).is_err());
    let long_name = format!("{}/{}", "ab/".repeat(90), "leaf");
    assert!(CaseName::parse(&long_name).is_err());
}

#[test]
fn name_errors_say_what_is_wrong() {
    let message = |n: &str| CaseName::parse(n).unwrap_err().to_string();
    assert_eq!(message(""), "name is empty");
    assert_eq!(message(&"a".repeat(257)), "name is 257 bytes (max 256)");
    assert_eq!(message("a//b"), "empty segment");
    assert_eq!(message("a/.."), "segment `..` is forbidden");
    assert_eq!(message("a/B"), "segment `B` contains forbidden character 'B'");
    assert_eq!(message("a/x\ny"), "segment `x\ny` contains forbidden character '\\n'");
    let long = "a".repeat(65);
    assert_eq!(message(&long), format!("segment `{long}` exceeds 64 bytes"));
    assert!(message("a_b/leaf").starts_with("non-leaf segment `a_b` is not a WIT label ("));
}

#[test]
fn normalization() {
    assert_eq!(normalize_segment("SHA-256"), "sha-256");
    assert_eq!(normalize_segment("case 375!"), "case_375_");
    assert_eq!(normalize_segment(""), "_");
    assert_eq!(normalize_segment(".."), "__");
}

#[test]
fn normalization_is_idempotent() {
    for s in ["SHA-256", "case 375!", "", "..", "ÄB c", "already.fine"] {
        let once = normalize_segment(s);
        assert_eq!(normalize_segment(&once), once);
    }
}

#[test]
fn prefixed_matches_parsed() {
    let parsed = CaseName::parse("aes-gcm/wycheproof/tc305/whole").unwrap();
    let split = CaseName::prefixed(
        ArcStr::from("aes-gcm/wycheproof"),
        ArcStr::from("tc305/whole"),
    )
    .unwrap();
    assert_eq!(parsed, split);
    assert_eq!(parsed.cmp(&split), core::cmp::Ordering::Equal);
    let h = |n: &CaseName| {
        let mut s = DefaultHasher::new();
        n.hash(&mut s);
        s.finish()
    };
    assert_eq!(h(&parsed), h(&split));
    assert_eq!(parsed.to_string(), split.to_string());
    assert_eq!(split.as_str(), "aes-gcm/wycheproof/tc305/whole");
    assert_eq!(split.leaf(), "whole");
    assert_eq!(split.prefix().as_deref(), Some("aes-gcm/wycheproof/tc305"));
    // grammar still enforced through the split constructor
    assert!(CaseName::prefixed(ArcStr::from("375"), ArcStr::from("x")).is_err());
    assert!(CaseName::prefixed(ArcStr::from("a"), ArcStr::from("B")).is_err());
    assert!(CaseName::prefixed(ArcStr::from("a"), ArcStr::from("375/leaf")).is_err());
    assert!(CaseName::prefixed(ArcStr::from("a"), ArcStr::from("x_y")).is_ok());
}

#[test]
fn from_parts_matches_parsed() {
    let full = ArcStr::from("aes-gcm/wycheproof/tc305/whole");
    let i = full.rfind('/').unwrap();
    let split = CaseName::from_parts(full.substr(..i), full.substr(i + 1..)).unwrap();
    let parsed = CaseName::parse("aes-gcm/wycheproof/tc305/whole").unwrap();
    assert_eq!(parsed, split);
    assert_eq!(split.as_str(), "aes-gcm/wycheproof/tc305/whole");
    // empty prefix = bare leaf
    let solo = CaseName::from_parts(Substr::new(), ArcStr::from("solo").substr(..)).unwrap();
    assert_eq!(solo, CaseName::parse("solo").unwrap());
    // invariants still enforced, allocation-free path or not
    let bad = |p: &str, l: &str| {
        CaseName::from_parts(ArcStr::from(p).substr(..), ArcStr::from(l).substr(..))
    };
    assert!(bad("375", "x").is_err()); // non-label prefix segment
    assert!(bad("a", "B").is_err()); // charset
    assert!(bad("a", "tc1/whole").is_err()); // slashed leaf: not canonical
    assert!(bad("a", "").is_err());
    assert!(bad("", "").is_err());
}

#[test]
fn accessors() {
    let n = CaseName::parse("sample/math/add").unwrap();
    assert_eq!(n.prefix().as_deref(), Some("sample/math"));
    assert_eq!(n.leaf(), "add");
    let n = CaseName::parse("solo").unwrap();
    assert_eq!(n.prefix(), None);
    assert_eq!(n.leaf(), "solo");
}

#[test]
fn segments_and_construction_from_shared_text() {
    let n = CaseName::new(ArcStr::from("sample/math/add")).unwrap();
    assert_eq!(n, CaseName::parse("sample/math/add").unwrap());
    assert_eq!(n.segments(), ["sample", "math", "add"]);
    assert_eq!(n.clone().as_str(), "sample/math/add");
    assert!(CaseName::new(ArcStr::from("Sample")).is_err());
}

#[test]
fn being_under_a_prefix_is_by_segment() {
    assert!(is_under("a/b/c", "a/b"));
    assert!(is_under("a/b/c", "a"));
    assert!(!is_under("a/bc", "a/b"));
    assert!(!is_under("a/b", "a/b"));
    assert!(!is_under("x/a/b", "a"));
}

#[test]
fn labels() {
    assert_eq!(is_wit_label("sha256-2048"), None);
    assert_eq!(is_wit_label("a"), None);
    for s in ["", "-a", "a-", "a--b", "2048-sha", "a-2048x", "a_b", "A"] {
        assert!(is_wit_label(s).is_some(), "{s}");
    }
}

#[test]
fn const_name_matches_parse() {
    for s in [
        "a",
        "sample/math/add",
        "group/source/case-375",
        "alg/wycheproof/0x1a2b_16384.v2",
        "a-b/c1/leaf",
        "",
        "/a",
        "a/",
        "a//b",
        "A/b",
        "a/b c",
        "./a",
        "a/../b",
        "375/leaf",
        "2048-sha/leaf",
        "a-2048x/leaf",
        "a_b/leaf",
        "a.b/leaf",
        "-a/leaf",
        "a-/leaf",
        "a/375",
        "a/a_b",
        "a/a.b",
        "a\nb",
        "solo",
        "sha256-2048/leaf",
        "2048-sha/leaf",
        "a-2048x/leaf",
    ] {
        assert_eq!(
            const_valid_name(s),
            CaseName::parse(s).is_ok(),
            "mismatch for {s:?}"
        );
    }
    let long_seg = "a".repeat(MAX_SEGMENT_LEN + 1);
    assert!(!const_valid_name(&long_seg));
}

#[test]
fn const_tag_matches_parse() {
    for s in [
        "big-int", "!big-int", "hsm", "", "!", "Big-Int", "big_int", "!!x", "a b", "a\nb",
    ] {
        assert_eq!(
            const_valid_tag(s),
            Tag::parse(s).is_ok(),
            "mismatch for {s:?}"
        );
    }
}

#[test]
fn marks_parse_roundtrip() {
    for s in ["big-int", "!big-int", "hsm", "!aes-gcm-any-iv"] {
        assert_eq!(Mark::parse(s).unwrap().to_string(), s);
    }
    assert!(Mark::parse("").is_err());
    assert!(Mark::parse("!").is_err());
    assert!(Mark::parse("Big-Int").is_err());
    assert!(Mark::parse("big_int").is_err());
    assert!(Mark::parse("!!x").is_err());
}

#[test]
fn marks_construction_invariants() {
    let hsm = || Mark::parse("hsm").unwrap();
    let not_hsm = || Mark::parse("!hsm").unwrap();
    assert_eq!(
        Marks::new(vec![hsm(), not_hsm()]).unwrap_err(),
        MarksError::Contradiction("hsm".into())
    );
    assert_eq!(
        Marks::new(vec![not_hsm(), not_hsm()]).unwrap_err(),
        MarksError::Duplicate("!hsm".into())
    );
    Marks::new(vec![hsm(), Mark::parse("!sim").unwrap()]).unwrap();
}

#[test]
fn marks_applicability() {
    let unmarked = Marks::default();
    assert!(unmarked.applies::<&str>(&[]));
    assert!(unmarked.applies(&["anything"]));

    let requires = Marks::new(vec![Mark::parse("hsm").unwrap()]).unwrap();
    assert!(requires.applies::<&str>(&[]));
    assert!(!requires.applies(&["hsm"]));
    assert_eq!(
        requires.excluding_mark(&["hsm"]).unwrap().to_string(),
        "hsm"
    );

    let declines = Marks::new(vec![Mark::parse("!hsm").unwrap()]).unwrap();
    assert!(!declines.applies::<&str>(&[]));
    assert!(declines.applies(&["hsm"]));

    // conjunction: requires a AND b, declines c
    let multi = Marks::new(vec![
        Mark::parse("a").unwrap(),
        Mark::parse("b").unwrap(),
        Mark::parse("!c").unwrap(),
    ])
    .unwrap();
    assert!(multi.applies(&["c"]));
    assert!(!multi.applies(&["a", "c"]));
    assert!(!multi.applies::<&str>(&[]));
}

#[test]
fn marks_accessors() {
    let marks = Marks::new(vec![Mark::parse("a").unwrap(), Mark::parse("!c").unwrap()]).unwrap();
    assert!(!marks.is_empty());
    assert!(Marks::default().is_empty());
    assert_eq!(marks.as_slice().len(), 2);
    let words: Vec<String> = marks.iter().map(|m| m.to_string()).collect();
    assert_eq!(words, ["a", "!c"]);
    assert_eq!(marks.as_slice()[1].feature(), "c");
    assert!(marks.as_slice()[1].is_negative());
    assert_eq!(marks.clone(), marks);
    assert_eq!(
        Marks::new(vec![Mark::parse("hsm").unwrap(), Mark::parse("!hsm").unwrap()])
            .unwrap_err()
            .to_string(),
        "contradictory marks: both `hsm` and `!hsm`"
    );
}

#[test]
fn tags_parse_roundtrip() {
    for s in ["big-int", "!big-int", "hsm", "!aes-gcm-any-iv"] {
        assert_eq!(Tag::parse(s).unwrap().to_string(), s);
    }
    assert!(Tag::parse("").is_err());
    assert!(Tag::parse("!").is_err());
    assert!(Tag::parse("Big-Int").is_err());
    assert!(Tag::parse("big_int").is_err());
    assert!(Tag::parse("!!x").is_err());
}

#[test]
fn tags_construction_invariants() {
    let hsm = || Tag::parse("hsm").unwrap();
    let not_hsm = || Tag::parse("!hsm").unwrap();
    assert_eq!(
        Tags::new(vec![hsm(), not_hsm()]).unwrap_err(),
        TagsError::Contradiction("hsm".into())
    );
    assert_eq!(
        Tags::new(vec![not_hsm(), not_hsm()]).unwrap_err(),
        TagsError::Duplicate("!hsm".into())
    );
    Tags::new(vec![hsm(), Tag::parse("!sim").unwrap()]).unwrap();
}

#[test]
fn tags_applicability() {
    let unmarked = Tags::default();
    assert!(unmarked.applies::<&str>(&[]));
    assert!(unmarked.applies(&["anything"]));

    let requires = Tags::new(vec![Tag::parse("hsm").unwrap()]).unwrap();
    assert!(requires.applies::<&str>(&[]));
    assert!(!requires.applies(&["hsm"]));
    assert_eq!(
        requires.excluding_mark(&["hsm"]).unwrap().to_string(),
        "hsm"
    );

    let declines = Tags::new(vec![Tag::parse("!hsm").unwrap()]).unwrap();
    assert!(!declines.applies::<&str>(&[]));
    assert!(declines.applies(&["hsm"]));

    // conjunction: requires a AND b, declines c
    let multi = Tags::new(vec![
        Tag::parse("a").unwrap(),
        Tag::parse("b").unwrap(),
        Tag::parse("!c").unwrap(),
    ])
    .unwrap();
    assert!(multi.applies(&["c"]));
    assert!(!multi.applies(&["a", "c"]));
    assert!(!multi.applies::<&str>(&[]));
}

#[test]
fn tags_accessors() {
    let tags = Tags::parse_all(&["a", "!c"]).unwrap();
    assert!(!tags.is_empty());
    assert!(Tags::default().is_empty());
    let words: Vec<String> = tags.iter().map(|t| t.to_string()).collect();
    assert_eq!(words, ["a", "!c"]);
    assert_eq!(tags.as_slice()[0].feature(), "a");
    assert!(!tags.as_slice()[0].is_negative());
    assert_eq!(tags.clone(), tags);
    assert!(Tags::parse_all(&["a", "!a"]).is_err());
    assert!(Tags::parse_all(&["a", "Bad_Tag"]).unwrap_err().contains("Bad_Tag"));
}

#[test]
fn a_positive_feature_needs_a_decline() {
    let tag = |s: &str| Tag::parse(s).unwrap();
    assert_eq!(
        unpaired_positive_features(&[tag("b"), tag("a"), tag("!b"), tag("!c")]),
        ["a"]
    );
    assert!(unpaired_positive_features(&[tag("a"), tag("!a")]).is_empty());
    let named = named_features(&[tag("b"), tag("a"), tag("!b")]);
    assert_eq!(named.to_keys(), ["a", "b"]);
}
