use splicer::analyzer::{make_html5_id, pick_longest, TargetPass1};
use splicer::bundle::{classify_entry, BundleElement, BundleElementData, BundleEntryClass, SiteMetadata};
use splicer::bundle_set::{SpliceError, SpliceWriter, WriteAction};
use splicer::nodes::{
    Document, FileId, Node, NodeData, Position, RefRole, Role, Root, SourceInfo, Target,
    TargetIdentifier, Text,
};
use splicer::target_database::{count_dots, normalize_target, pick_most_dots, TargetDatabase};
use splicer::text::u64_to_dec;

fn fid(path: &str) -> FileId {
    FileId {
        path: path.to_string(),
    }
}

fn pos() -> Position {
    Position {
        start: SourceInfo { line: 0 },
    }
}

fn node(data: NodeData, children: Vec<Node>) -> Node {
    Node {
        data,
        children,
        position: pos(),
    }
}

fn empty_options() -> bson::Bson {
    bson::Bson::Document(bson::Document::new())
}

fn target_identifier(ids: &[&str], children: Vec<Node>) -> Node {
    node(
        NodeData::TargetIdentifier(TargetIdentifier {
            ids: ids.iter().map(|s| s.to_string()).collect(),
        }),
        children,
    )
}

fn target_node(domain: &str, name: &str, children: Vec<Node>) -> Node {
    node(
        NodeData::Target(Target {
            domain: domain.to_string(),
            name: name.to_string(),
            html_id: None,
            options: None,
        }),
        children,
    )
}

fn document(page_id: &str, filename: &str, ast: Node) -> Document {
    Document {
        page_id: page_id.to_string(),
        filename: fid(filename),
        ast,
        source: String::new(),
        static_assets: Vec::new(),
        facets: None,
    }
}

#[test]
fn test_without_known_suffix() {
    let fileid = fid("foo/bar.txt");
    assert_eq!(fileid.without_known_suffix(), "foo/bar");

    let fileid = fid("foo/bar.png");
    assert_eq!(fileid.without_known_suffix(), "foo/bar.png");
}

#[test]
fn test_as_posix() {
    let fileid = fid("foo/bar");
    assert_eq!(fileid.as_posix(), "foo/bar");

    let fileid = fid("/foo/bar");
    assert_eq!(fileid.as_posix(), "/foo/bar");

    let fileid = fid("/foo/../bar");
    assert_eq!(fileid.as_posix(), "/foo/../bar");

    let fileid = fid("/foo/./bar");
    assert_eq!(fileid.as_posix(), "/foo/bar");
}

#[test]
fn migrate() {
    let ref_role = node(
        NodeData::RefRole(RefRole {
            role: Role {
                domain: "std".to_string(),
                name: "label".to_string(),
                target: "type-conversion-modes".to_string(),
                flag: String::new(),
            },
            children: Vec::new(),
            fileid: Some((
                "reference/type-conversion".to_string(),
                "std-label-type-conversion-modes".to_string(),
            )),
            url: None,
        }),
        Vec::new(),
    );
    let root = node(
        NodeData::Root(Root {
            fileid: fid("supported-operations.txt"),
            options: empty_options(),
        }),
        vec![ref_role],
    );
    let doc = document("bi-connector/heli/master/index", "index.txt", root);
    let mut element = BundleElement::new(
        "index.bson".to_string(),
        BundleElementData::Document(Box::new(doc)),
    );

    element.migrate("migrated/main");
    assert_eq!(element.name, "migrated/main/index.bson");
    let doc = if let BundleElementData::Document(doc) = element.data {
        doc
    } else {
        unreachable!();
    };

    assert_eq!(doc.page_id, "migrated/main/bi-connector/heli/master/index");

    let mut fileid_list: Vec<String> = vec![];
    if let NodeData::RefRole(refrole) = &doc.ast.children[0].data {
        let (fileid, html5_id) = refrole.fileid.as_ref().unwrap();
        fileid_list.push(fileid.to_owned());
        fileid_list.push(html5_id.to_owned());
    }

    assert_eq!(
        fileid_list,
        vec![
            "migrated/main/reference/type-conversion",
            "std-label-type-conversion-modes"
        ]
    );
}

#[test]
fn migrate_twice_doubles_prefix() {
    let mut element = BundleElement::new(
        "hash0".to_string(),
        BundleElementData::Asset(vec![1, 2, 3]),
    );
    element.migrate("ns1/main");
    assert_eq!(element.name, "ns1/main/hash0");
    element.migrate("ns1/main");
    assert_eq!(element.name, "ns1/main/ns1/main/hash0");
}

#[test]
fn resolution_assigns_longest_seed() {
    // Identifier sets {"a", "abc"} and {"ab"}: the anchor seed is the
    // longest representative across all identifier children.
    let target = target_node(
        "std",
        "label",
        vec![
            target_identifier(&["a", "abc"], Vec::new()),
            target_identifier(&["ab"], Vec::new()),
        ],
    );
    let root = node(
        NodeData::Root(Root {
            fileid: fid("page.txt"),
            options: empty_options(),
        }),
        vec![target],
    );
    let mut doc = document("page", "page.txt", root);
    let mut pass = TargetPass1::new();
    let mut db = TargetDatabase::new();
    pass.resolve_document(&mut doc, &mut db);

    let html_id = if let NodeData::Target(t) = &doc.ast.children[0].data {
        t.html_id.clone()
    } else {
        None
    };
    assert_eq!(html_id.as_deref(), Some("std-label-abc"));
}

#[test]
fn pick_longest_prefers_earliest_tie() {
    let ids: Vec<String> = vec!["ab".to_string(), "cd".to_string()];
    assert_eq!(pick_longest(&ids), "ab");
    let ids: Vec<String> = vec!["a".to_string(), "xyz".to_string(), "pqr".to_string()];
    assert_eq!(pick_longest(&ids), "xyz");
}

#[test]
fn sanitize_only_disallowed_characters() {
    // Disallowed characters each become a dash; only an empty input
    // falls back to the literal.
    assert_eq!(make_html5_id("***"), "---");
    assert_eq!(make_html5_id(""), "unnamed");
    assert_eq!(make_html5_id("Hello World!"), "Hello-World-");
    assert_eq!(make_html5_id("a_b.c-d"), "a_b.c-d");
}

#[test]
fn canonical_name_most_dots() {
    let mut db = TargetDatabase::new();
    let targets: Vec<String> = vec!["mongod".to_string(), "mongod.-v".to_string()];
    let title: Vec<Node> = Vec::new();
    db.define_local_target("std", "option", &targets, &fid("ref.txt"), &title, "std-option-mongod");

    let results = db.get("std:option:mongod");
    assert_eq!(results.len(), 1);
    assert_eq!(results[0].canonical_name, "mongod.-v");
    assert_eq!(results[0].result.0, "ref");
    assert_eq!(results[0].result.1, "std-option-mongod");

    let results = db.get("std:option:mongod.-v");
    assert_eq!(results.len(), 1);
    assert_eq!(results[0].canonical_name, "mongod.-v");
}

#[test]
fn canonical_name_tie_earliest() {
    let targets: Vec<String> = vec!["a.b".to_string(), "c.d".to_string()];
    assert_eq!(pick_most_dots(&targets), "a.b");
    assert_eq!(count_dots("mongod.-v"), 1);
}

#[test]
fn database_normalizes_whitespace() {
    let mut db = TargetDatabase::new();
    let targets: Vec<String> = vec!["a  \t b".to_string()];
    let title: Vec<Node> = Vec::new();
    db.define_local_target("std", "label", &targets, &fid("p.txt"), &title, "std-label-a-b");
    let results = db.get("std:label:a b");
    assert_eq!(results.len(), 1);
    assert_eq!(normalize_target("a  \t b"), "a b");
}

#[test]
fn duplicate_candidates_disambiguated() {
    // Three targets with the same candidate id: the ids stay pairwise
    // distinct via the dash-and-numeral suffix.
    let mut pass = TargetPass1::new();
    let id1 = pass.assign(&"std-label-x".to_string());
    let id2 = pass.assign(&"std-label-x".to_string());
    let id3 = pass.assign(&"std-label-x".to_string());
    assert_eq!(id1, "std-label-x");
    assert_eq!(id2, "std-label-x-1");
    assert_eq!(id3, "std-label-x-2");
}

#[test]
fn resolution_disambiguates_across_targets() {
    // Three targets defining the same identifier on one page: every
    // assigned anchor id is distinct.
    let root = node(
        NodeData::Root(Root {
            fileid: fid("p.txt"),
            options: empty_options(),
        }),
        vec![
            target_node("std", "label", vec![target_identifier(&["x"], Vec::new())]),
            target_node("std", "label", vec![target_identifier(&["x"], Vec::new())]),
            target_node("std", "label", vec![target_identifier(&["x"], Vec::new())]),
        ],
    );
    let mut doc = document("p", "p.txt", root);
    let mut pass = TargetPass1::new();
    let mut db = TargetDatabase::new();
    pass.resolve_document(&mut doc, &mut db);

    let mut ids: Vec<String> = Vec::new();
    for child in &doc.ast.children {
        if let NodeData::Target(t) = &child.data {
            ids.push(t.html_id.clone().unwrap());
        }
    }
    assert_eq!(ids, vec!["std-label-x", "std-label-x-1", "std-label-x-2"]);
}

#[test]
fn resolution_registers_titles_and_ids() {
    let title_text = node(
        NodeData::Text(Text {
            value: "Conversion Modes".to_string(),
        }),
        Vec::new(),
    );
    let target = target_node(
        "std",
        "label",
        vec![target_identifier(
            &["type-conversion-modes"],
            vec![title_text],
        )],
    );
    let root = node(
        NodeData::Root(Root {
            fileid: fid("reference/type-conversion.txt"),
            options: empty_options(),
        }),
        vec![target],
    );
    let mut doc = document("reference/type-conversion", "reference/type-conversion.txt", root);
    let mut pass = TargetPass1::new();
    let mut db = TargetDatabase::new();
    pass.resolve_document(&mut doc, &mut db);

    let results = db.get("std:label:type-conversion-modes");
    assert_eq!(results.len(), 1);
    assert_eq!(results[0].result.0, "reference/type-conversion");
    assert_eq!(results[0].result.1, "std-label-type-conversion-modes");
    assert_eq!(results[0].title.len(), 1);
}

#[test]
fn target_without_identifiers_skipped() {
    let target = target_node("std", "label", Vec::new());
    let root = node(
        NodeData::Root(Root {
            fileid: fid("p.txt"),
            options: empty_options(),
        }),
        vec![target],
    );
    let mut doc = document("p", "p.txt", root);
    let mut pass = TargetPass1::new();
    let mut db = TargetDatabase::new();
    pass.resolve_document(&mut doc, &mut db);
    if let NodeData::Target(t) = &doc.ast.children[0].data {
        assert!(t.html_id.is_none());
    } else {
        panic!("target expected");
    }
}

#[test]
fn splice_deduplicates_assets() {
    let mut writer = SpliceWriter::new();
    let mut a1 = BundleElement::new("hash1".to_string(), BundleElementData::Asset(vec![1]));
    a1.migrate("proj1/main");
    let mut a2 = BundleElement::new("hash1".to_string(), BundleElementData::Asset(vec![1]));
    a2.migrate("proj2/main");

    match writer.accept(&a1) {
        Ok(WriteAction::Write(p)) => assert_eq!(p, "assets/hash1"),
        _ => panic!("first asset must be written"),
    }
    match writer.accept(&a2) {
        Ok(WriteAction::SkipDuplicate) => {}
        _ => panic!("second asset with the same hash must be skipped"),
    }
}

#[test]
fn splice_counts_entries() {
    // Two bundles, one document and one diagnostics each, three assets
    // with two distinct hashes: four writes plus one skip.
    let mut writer = SpliceWriter::new();
    let elements = vec![
        BundleElement::new(
            "ns1/index.bson".to_string(),
            BundleElementData::Document(Box::new(document("ns1/index", "index.txt", node(NodeData::Comment, Vec::new())))),
        ),
        BundleElement::new("ns1/hash1".to_string(), BundleElementData::Asset(vec![1])),
        BundleElement::new(
            "ns2/index.bson".to_string(),
            BundleElementData::Diagnostics(Vec::new()),
        ),
        BundleElement::new("ns2/hash1".to_string(), BundleElementData::Asset(vec![1])),
        BundleElement::new("ns2/hash2".to_string(), BundleElementData::Asset(vec![2])),
    ];
    let mut writes = 0;
    let mut skips = 0;
    let mut paths: Vec<String> = Vec::new();
    for e in &elements {
        match writer.accept(e) {
            Ok(WriteAction::Write(p)) => {
                writes += 1;
                paths.push(p);
            }
            Ok(WriteAction::SkipDuplicate) => skips += 1,
            Err(_) => panic!("no error expected"),
        }
    }
    assert_eq!(writes, 4);
    assert_eq!(skips, 1);
    assert_eq!(
        paths,
        vec![
            "documents/ns1/index.bson",
            "assets/hash1",
            "diagnostics/ns2/index.bson",
            "assets/hash2"
        ]
    );
}

#[test]
fn splice_rejects_asset_without_name() {
    let mut writer = SpliceWriter::new();
    let bad = BundleElement::new("ns1/".to_string(), BundleElementData::Asset(vec![1]));
    match writer.accept(&bad) {
        Err(SpliceError::MissingAssetName) => {}
        _ => panic!("asset without a file name must be an error"),
    }
}

#[test]
fn namespace_from_metadata() {
    let meta = SiteMetadata::new("bi-connector".to_string(), "master".to_string());
    assert_eq!(meta.get_namespace(), "bi-connector/master");
}

#[test]
fn full_bundle_path_has_category() {
    let e = BundleElement::new("ns/doc.bson".to_string(), BundleElementData::Diagnostics(Vec::new()));
    assert_eq!(e.get_full_bundle_path(), "diagnostics/ns/doc.bson");
}

#[test]
fn entry_classification() {
    let (c, rest) = classify_entry("documents/foo/bar.bson");
    assert_eq!(c, BundleEntryClass::Document);
    assert_eq!(rest, "foo/bar.bson");

    let (c, rest) = classify_entry("assets/abc123");
    assert_eq!(c, BundleEntryClass::Asset);
    assert_eq!(rest, "abc123");

    let (c, rest) = classify_entry("diagnostics/foo.bson");
    assert_eq!(c, BundleEntryClass::Diagnostics);
    assert_eq!(rest, "foo.bson");

    let (c, _) = classify_entry("site.bson");
    assert_eq!(c, BundleEntryClass::SiteRecord);

    let (c, _) = classify_entry("extras/readme");
    assert_eq!(c, BundleEntryClass::Unrecognized);
}

#[test]
fn decimal_rendering() {
    assert_eq!(u64_to_dec(0), "0");
    assert_eq!(u64_to_dec(7), "7");
    assert_eq!(u64_to_dec(40), "40");
    assert_eq!(u64_to_dec(1234), "1234");
}

#[test]
fn suffix_stripping_variants() {
    assert_eq!(fid("a/b.yaml").without_known_suffix(), "a/b");
    assert_eq!(fid("a/b.rst").without_known_suffix(), "a/b");
    assert_eq!(fid("a/b.ast").without_known_suffix(), "a/b");
    assert_eq!(fid("a/b.txt.txt").without_known_suffix(), "a/b.txt");
}
