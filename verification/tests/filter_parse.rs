//! The filter language: which strings are which conditions.
use rss::filter::Filter;
use rss::filter_ast::{
    AgeField, AttrRequirement, AttrTest, CmpOp, Condition, ConditionKind, FileClass, SizeMetric,
    Span, TagSet,
};
use rss::node::NodeFlags;


fn parse(input: &str) -> Filter {
    Filter::parse(input, &[])
}

fn only_condition(input: &str) -> Condition {
    let f = parse(input);
    assert!(
        f.warnings().is_empty(),
        "warnings for {input:?}: {:?}",
        f.warnings()
    );
    assert_eq!(f.conditions().len(), 1, "conditions for {input:?}");
    f.conditions()[0].clone()
}

/// Canonical example: `*.jpg;>1mb;<3months;|:yellow`.
#[test]
fn canonical_manual_example() {
    let f = parse("*.jpg;>1mb;<3months;|:yellow");
    assert!(f.warnings().is_empty());
    assert_eq!(f.conditions().len(), 4);

    match &f.conditions()[0].kind {
        ConditionKind::FileMask { pattern, negated } => {
            assert_eq!(pattern.as_str(), "*.jpg");
            assert!(!negated);
        }
        k => panic!("unexpected {k:?}"),
    }
    assert_eq!(f.conditions()[0].span, Span { start: 0, end: 5 });

    match &f.conditions()[1].kind {
        ConditionKind::Size { metric, op, bytes } => {
            assert_eq!(*metric, SizeMetric::Disk);
            assert_eq!(*op, CmpOp::Gt);
            assert_eq!(*bytes, 1024 * 1024);
        }
        k => panic!("unexpected {k:?}"),
    }
    assert_eq!(f.conditions()[1].span, Span { start: 6, end: 10 });

    match &f.conditions()[2].kind {
        ConditionKind::Age { field, op, seconds } => {
            assert_eq!(*field, AgeField::Modify); // default is modify date
            assert_eq!(*op, CmpOp::Lt);
            assert_eq!(*seconds, 3 * 30 * 86_400); // a month is 30 days
        }
        k => panic!("unexpected {k:?}"),
    }

    match &f.conditions()[3].kind {
        ConditionKind::Tag { expr, negated } => {
            assert!(negated);
            assert_eq!(expr.included, TagSet(TagSet::YELLOW));
            assert_eq!(expr.excluded, TagSet(TagSet::EMPTY));
        }
        k => panic!("unexpected {k:?}"),
    }
}

/// Second canonical example: `*.jpg;*.gif;>100kb;<6months`.
#[test]
fn second_manual_example() {
    let f = parse("*.jpg;*.gif;>100kb;<6months");
    assert!(f.warnings().is_empty());
    assert_eq!(f.conditions().len(), 4);
    assert!(matches!(
        &f.conditions()[0].kind,
        ConditionKind::FileMask { pattern, negated: false } if pattern.as_str() == "*.jpg"
    ));
    assert!(matches!(
        &f.conditions()[1].kind,
        ConditionKind::FileMask { pattern, negated: false } if pattern.as_str() == "*.gif"
    ));
    assert!(matches!(
        &f.conditions()[2].kind,
        ConditionKind::Size {
            metric: SizeMetric::Disk,
            op: CmpOp::Gt,
            bytes: 102_400
        }
    ));
    assert!(matches!(
        &f.conditions()[3].kind,
        ConditionKind::Age { field: AgeField::Modify, op: CmpOp::Lt, seconds } if *seconds == 6 * 30 * 86_400
    ));
}

/// Tag expression: `:tag:red+green-b` and `|:tag:1,3,-red`.
#[test]
fn tag_expressions() {
    let c = only_condition(":tag:red+green-b");
    match &c.kind {
        ConditionKind::Tag { expr, negated } => {
            assert!(!negated);
            assert_eq!(expr.included, TagSet(TagSet::RED).union(TagSet(TagSet::GREEN)));
            assert_eq!(expr.excluded, TagSet(TagSet::BLUE));
        }
        k => panic!("unexpected {k:?}"),
    }

    let c = only_condition("|:tag:1,3,-red");
    match &c.kind {
        ConditionKind::Tag { expr, negated } => {
            assert!(negated);
            assert_eq!(expr.included, TagSet(TagSet::RED).union(TagSet(TagSet::GREEN)));
            assert_eq!(expr.excluded, TagSet(TagSet::RED));
        }
        k => panic!("unexpected {k:?}"),
    }

    // `:tags:` alias and `all`.
    let c = only_condition(":tags:all-b");
    match &c.kind {
        ConditionKind::Tag { expr, .. } => {
            assert_eq!(expr.included, TagSet(TagSet::ALL));
            assert_eq!(expr.excluded, TagSet(TagSet::BLUE));
        }
        k => panic!("unexpected {k:?}"),
    }
}

/// Legacy tag syntax: `:red`/`:r`/`:1`..`:all`/`:a`, `|:red`.
#[test]
fn legacy_tags() {
    for (input, set) in [
        (":red", TagSet(TagSet::RED)),
        (":r", TagSet(TagSet::RED)),
        (":1", TagSet(TagSet::RED)),
        (":yellow", TagSet(TagSet::YELLOW)),
        (":y", TagSet(TagSet::YELLOW)),
        (":2", TagSet(TagSet::YELLOW)),
        (":green", TagSet(TagSet::GREEN)),
        (":g", TagSet(TagSet::GREEN)),
        (":3", TagSet(TagSet::GREEN)),
        (":blue", TagSet(TagSet::BLUE)),
        (":b", TagSet(TagSet::BLUE)),
        (":4", TagSet(TagSet::BLUE)),
        (":all", TagSet(TagSet::ALL)),
        (":a", TagSet(TagSet::ALL)),
        (":RED", TagSet(TagSet::RED)), // case-insensitive
    ] {
        let c = only_condition(input);
        match &c.kind {
            ConditionKind::Tag { expr, negated } => {
                assert!(!negated, "{input}");
                assert_eq!(expr.included, set, "{input}");
                assert_eq!(expr.excluded, TagSet(TagSet::EMPTY), "{input}");
            }
            k => panic!("unexpected {k:?} for {input}"),
        }
    }
    let c = only_condition("|:red");
    assert!(matches!(&c.kind, ConditionKind::Tag { negated: true, .. }));
}

/// Attribute expression: `:attr:+a-ro,h`.
#[test]
fn attr_expression() {
    let c = only_condition(":attr:+a-ro,h");
    match &c.kind {
        ConditionKind::Attr { tests, negated } => {
            assert!(!negated);
            assert_eq!(
                tests.as_slice(),
                &[
                    AttrTest {
                        flags: NodeFlags(NodeFlags::ARCHIVE),
                        requirement: AttrRequirement::IsSet
                    },
                    AttrTest {
                        flags: NodeFlags(NodeFlags::READONLY),
                        requirement: AttrRequirement::Clear
                    },
                    AttrTest {
                        flags: NodeFlags(NodeFlags::HIDDEN),
                        requirement: AttrRequirement::IsSet
                    },
                ]
            );
        }
        k => panic!("unexpected {k:?}"),
    }

    // `:attrs:` alias, full names, negation.
    let c = only_condition("|:attrs:-system,+sparse");
    match &c.kind {
        ConditionKind::Attr { tests, negated } => {
            assert!(negated);
            assert_eq!(
                tests.as_slice(),
                &[
                    AttrTest {
                        flags: NodeFlags(NodeFlags::SYSTEM),
                        requirement: AttrRequirement::Clear
                    },
                    AttrTest {
                        flags: NodeFlags(NodeFlags::SPARSE),
                        requirement: AttrRequirement::IsSet
                    },
                ]
            );
        }
        k => panic!("unexpected {k:?}"),
    }

    // Prefixes and the ads attribute.
    let c = only_condition(":attr:comp,enc,off,temp,noti,ads");
    match &c.kind {
        ConditionKind::Attr { tests, .. } => {
            assert_eq!(tests.len(), 6);
            assert_eq!(tests[5].flags, NodeFlags(NodeFlags::ADS));
        }
        k => panic!("unexpected {k:?}"),
    }
}

/// Folder masks: `\*internet*`, `\temp`, `|\temp`.
#[test]
fn folder_masks() {
    let c = only_condition("\\*internet*");
    assert!(matches!(
        &c.kind,
        ConditionKind::FolderMask { pattern, negated: false } if pattern.as_str() == "*internet*"
    ));
    let c = only_condition("\\temp");
    assert!(matches!(
        &c.kind,
        ConditionKind::FolderMask { pattern, negated: false } if pattern.as_str() == "temp"
    ));
    let c = only_condition("|\\temp");
    assert!(matches!(
        &c.kind,
        ConditionKind::FolderMask { pattern, negated: true } if pattern.as_str() == "temp"
    ));
}

/// Size keywords, aliases, unambiguous prefixes, units.
#[test]
fn parse_size_conditions() {
    let cases: &[(&str, SizeMetric, CmpOp, u64)] = &[
        (">100kb", SizeMetric::Disk, CmpOp::Gt, 100 * 1024),
        ("disksize>100kb", SizeMetric::Disk, CmpOp::Gt, 100 * 1024),
        ("clustersize>1kb", SizeMetric::Disk, CmpOp::Gt, 1024),
        ("filesize<1mb", SizeMetric::Logical, CmpOp::Lt, 1 << 20),
        ("logicalsize>2gb", SizeMetric::Logical, CmpOp::Gt, 2 << 30),
        ("size>10", SizeMetric::Disk, CmpOp::Gt, 10),
        ("disk>1mb", SizeMetric::Disk, CmpOp::Gt, 1 << 20),
        ("dsk>1mb", SizeMetric::Disk, CmpOp::Gt, 1 << 20),
        ("dsksz>1mb", SizeMetric::Disk, CmpOp::Gt, 1 << 20),
        ("d>1kb", SizeMetric::Disk, CmpOp::Gt, 1024), // unambiguous prefix
        (">100", SizeMetric::Disk, CmpOp::Gt, 100),   // bare number = bytes
        ("size > 10 mb", SizeMetric::Disk, CmpOp::Gt, 10 << 20), // spaced form
        (">1tb", SizeMetric::Disk, CmpOp::Gt, 1 << 40),
        (">42B", SizeMetric::Disk, CmpOp::Gt, 42), // case-insensitive unit
    ];
    for (input, metric, op, bytes) in cases {
        let c = only_condition(input);
        match &c.kind {
            ConditionKind::Size {
                metric: m,
                op: o,
                bytes: b,
            } => {
                assert_eq!((*m, *o, *b), (*metric, *op, *bytes), "{input}");
            }
            k => panic!("unexpected {k:?} for {input}"),
        }
    }
}

/// Age keywords, defaults, units. Month = 30 days, year = 365.
#[test]
fn parse_age_conditions() {
    let cases: &[(&str, AgeField, CmpOp, u64)] = &[
        ("<3months", AgeField::Modify, CmpOp::Lt, 3 * 30 * 86_400),
        ("a>1year", AgeField::Access, CmpOp::Gt, 365 * 86_400),
        ("m<2weeks", AgeField::Modify, CmpOp::Lt, 2 * 604_800),
        ("c<3days", AgeField::Creation, CmpOp::Lt, 3 * 86_400), // unit disambiguates `c`
        ("creation>1hours", AgeField::Creation, CmpOp::Gt, 3_600),
        ("modify>30minutes", AgeField::Modify, CmpOp::Gt, 1_800),
        ("access<10seconds", AgeField::Access, CmpOp::Lt, 10),
        (">1y", AgeField::Modify, CmpOp::Gt, 365 * 86_400), // unambiguous unit prefix
    ];
    for (input, field, op, seconds) in cases {
        let c = only_condition(input);
        match &c.kind {
            ConditionKind::Age {
                field: f,
                op: o,
                seconds: s,
            } => {
                assert_eq!((*f, *o, *s), (*field, *op, *seconds), "{input}");
            }
            k => panic!("unexpected {k:?} for {input}"),
        }
    }
    // `c` with a size unit is cluster size, not creation age.
    let c = only_condition("c>1kb");
    assert!(matches!(
        &c.kind,
        ConditionKind::Size {
            metric: SizeMetric::Disk,
            ..
        }
    ));
}

/// File classes: case-insensitive name lookup, extension
/// expansion at parse time, negation.
#[test]
fn parse_class_conditions() {
    let classes = [
        FileClass::new("Audio/Music", &["mp3", ".wav"]),
        FileClass::new("Images", &["jpg", "gif"]),
    ];
    let f = Filter::parse(":class:Audio/Music", &classes);
    assert!(f.warnings().is_empty());
    match &f.conditions()[0].kind {
        ConditionKind::Class {
            name,
            extensions,
            negated,
        } => {
            assert_eq!(name.as_str(), "Audio/Music");
            assert!(!negated);
            let exts: Vec<&str> = extensions.iter().map(|e| e.as_str()).collect();
            assert_eq!(exts, ["mp3", "wav"]); // `.wav` normalized
        }
        k => panic!("unexpected {k:?}"),
    }
    // Case-insensitive lookup and negation.
    let f = Filter::parse("|:class:images", &classes);
    assert!(f.warnings().is_empty());
    assert!(matches!(
        &f.conditions()[0].kind,
        ConditionKind::Class { negated: true, name, .. } if name.as_str() == "Images"
    ));
    // Unknown class: warning, condition dropped.
    let f = Filter::parse(":class:Nope", &classes);
    assert_eq!(f.warnings().len(), 1);
    assert!(f.warnings()[0].message.contains("unknown file class"));
    assert!(f.conditions().is_empty());
}

/// Empty conditions are skipped silently; the rest still parses.
#[test]
fn empty_conditions_skipped() {
    let f = parse("*.jpg;;>1mb;");
    assert!(f.warnings().is_empty());
    assert_eq!(f.conditions().len(), 2);
    assert!(Filter::parse("", &[]).is_empty());
    assert!(Filter::parse(" ; ; ", &[]).is_empty());
}

/// Spans track the trimmed condition positions.
#[test]
fn condition_spans() {
    let f = parse("*.jpg; >1mb ;<3months");
    assert_eq!(f.conditions()[0].span, Span { start: 0, end: 5 });
    assert_eq!(f.conditions()[1].span, Span { start: 7, end: 11 });
    assert_eq!(f.conditions()[2].span, Span { start: 13, end: 21 });
}

/// Malformed input produces warnings with spans, never panics, and the
/// bad condition is dropped.
#[test]
fn malformed_input_warnings() {
    let cases: &[(&str, &str)] = &[
        (">10zz", "unknown unit"),
        ("<3m", "ambiguous unit"), // minutes or months?
        ("foo>3", "unknown size/age keyword"),
        ("modify>3", "needs a unit"),
        (":tag:purple", "unknown tag"),
        (":tag:", "empty item"),
        (":attr:q", "unknown attribute"),
        (":attr:s", "ambiguous attribute"), // system or sparse?
        (":foo:bar", "unknown filter command"),
        ("|", "empty condition"),
        ("\\", "empty folder mask"),
        ("|>1mb", "negation"),
        (">=3", "'=' is not supported"),
        (">", "expected a number"),
    ];
    for (input, msg_part) in cases {
        let f = parse(input);
        assert_eq!(f.warnings().len(), 1, "{input}: {:?}", f.warnings());
        assert!(
            f.warnings()[0].message.contains(msg_part),
            "{input}: message {:?} should contain {msg_part:?}",
            f.warnings()[0].message
        );
        assert!(f.conditions().is_empty(), "{input}");
        let span = f.warnings()[0].span;
        assert_eq!(&input[span.start..span.end], input.trim(), "{input}");
    }
    // A bad condition does not sink its neighbors.
    let f = parse("*.jpg;>10zz;*.gif");
    assert_eq!(f.warnings().len(), 1);
    assert_eq!(f.conditions().len(), 2);
}

#[test]
fn negated_file_mask() {
    let c = only_condition("|*.jpg");
    assert!(matches!(
        &c.kind,
        ConditionKind::FileMask { pattern, negated: true } if pattern.as_str() == "*.jpg"
    ));
}

#[test]
fn masks_may_contain_colons_and_spaces() {
    // ADS-style names and spaces stay plain file masks (no '<'/'>').
    let c = only_condition("*:Zone.Identifier");
    assert!(matches!(
        &c.kind,
        ConditionKind::FileMask { negated: false, .. }
    ));
    let c = only_condition("my file*");
    assert!(matches!(
        &c.kind,
        ConditionKind::FileMask { pattern, .. } if pattern.as_str() == "my file*"
    ));
}

#[test]
fn extensions_of_classes_are_in_normal_form() {
    let class = FileClass::new("Mixed", &["..TAR", ".Gz", "", "...", "mp3"]);
    assert_eq!(class.name, "Mixed");
    assert_eq!(class.extensions, ["tar", "gz", "mp3"]);
    let again: Vec<&str> = class.extensions.iter().map(String::as_str).collect();
    assert_eq!(FileClass::new("Mixed", &again).extensions, class.extensions);
}
