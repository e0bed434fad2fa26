use bookdata_ids::literals::{LitSeedError, LitWriter};
use bookdata_ids::nodes::{NodeIndex, SeedError};
use bookdata_ids::statement::{LineParse, Object, Predicate, Subject, Triple};
use bookdata_ids::triples::{escapes_ok, obj_id, LineOutcome, TripleImporter};

fn statement(s: Subject, p: &str, o: Object) -> LineParse {
    LineParse::Statement(Triple { subject: s, predicate: Predicate::IriRef(p.to_string()), object: o })
}

#[test]
fn seeded_run_allocates_after_snapshot() {
    let mut imp = TripleImporter::new("member.nt");
    assert!(imp.nodes.load(5, &vec![]).is_ok());
    assert!(imp.lits.load(0).is_ok());
    let a = "http://example.org/a".to_string();
    let line = statement(Subject::IriRef(a.clone()), &a, Object::Lit("x".to_string()));
    assert_eq!(imp.process_parsed(line), LineOutcome::Written);
    assert_eq!(imp.nodes.take_output(), b"6\thttp://example.org/a\n".to_vec());
    assert_eq!(imp.lits.take_output(), b"-1\tx\n".to_vec());
    assert_eq!(imp.take_triples(), b"6\t6\t-1\n".to_vec());
}

#[test]
fn statement_with_distinct_predicate() {
    let mut imp = TripleImporter::new("member.nt");
    assert!(imp.nodes.load(5, &vec![]).is_ok());
    let a = "http://example.org/a".to_string();
    let line = statement(Subject::IriRef(a.clone()), "http://example.org/p", Object::IriRef(a));
    assert_eq!(imp.process_parsed(line), LineOutcome::Written);
    assert_eq!(imp.take_triples(), b"6\t7\t6\n".to_vec());
    assert_eq!(
        imp.nodes.take_output(),
        b"6\thttp://example.org/a\n7\thttp://example.org/p\n".to_vec()
    );
}

#[test]
fn repeated_iri_keeps_its_id() {
    let mut idx = NodeIndex::create("doc");
    let first = idx.node_id("http://example.org/a");
    let second = idx.node_id("http://example.org/a");
    assert_eq!(first, 1);
    assert_eq!(second, 1);
    assert_eq!(idx.take_output(), b"1\thttp://example.org/a\n".to_vec());
}

#[test]
fn new_ids_follow_first_encounter_order() {
    let mut idx = NodeIndex::create("doc");
    assert!(idx.load(10, &vec![]).is_ok());
    assert_eq!(idx.node_id("a"), 11);
    assert_eq!(idx.node_id("b"), 12);
    assert_eq!(idx.node_id("a"), 11);
    assert_eq!(idx.node_id("c"), 13);
    assert_eq!(idx.max(), 13);
    assert_eq!(idx.take_output(), b"11\ta\n12\tb\n13\tc\n".to_vec());
}

#[test]
fn seeded_iri_is_not_written_again() {
    let mut idx = NodeIndex::create("doc");
    let seed = vec![(b"http://x".to_vec(), 3i64), (b"http://y".to_vec(), 5i64)];
    assert!(idx.load(5, &seed).is_ok());
    assert_eq!(idx.node_id("http://x"), 3);
    assert_eq!(idx.node_id("http://y"), 5);
    assert!(idx.take_output().is_empty());
    assert_eq!(idx.node_id("http://z"), 6);
}

#[test]
fn later_seed_entry_wins() {
    let mut idx = NodeIndex::create("doc");
    let seed = vec![(b"http://x".to_vec(), 3i64), (b"http://x".to_vec(), 4i64)];
    assert!(idx.load(5, &seed).is_ok());
    assert_eq!(idx.node_id("http://x"), 4);
}

#[test]
fn invalid_seeds_are_refused() {
    let mut idx = NodeIndex::create("doc");
    assert!(matches!(idx.load(-1, &vec![]), Err(SeedError::NegativeMax)));
    let over = vec![(b"http://x".to_vec(), 2i64), (b"http://y".to_vec(), 9i64)];
    assert!(matches!(idx.load(5, &over), Err(SeedError::InvalidEntry(1))));
    let zero = vec![(b"http://x".to_vec(), 0i64)];
    assert!(matches!(idx.load(5, &zero), Err(SeedError::InvalidEntry(0))));
    let blank = vec![(b"blank://doc/k".to_vec(), 1i64)];
    assert!(matches!(idx.load(5, &blank), Err(SeedError::InvalidEntry(0))));
    assert_eq!(idx.node_id("a"), 1);
}

#[test]
fn blank_keys_are_scoped_by_document() {
    let mut idx = NodeIndex::create("d1");
    let first = idx.blank_id("k");
    assert_eq!(idx.blank_id("k"), first);
    idx.set_document("d2");
    let second = idx.blank_id("k");
    assert_ne!(first, second);
    assert_eq!(idx.take_output(), b"1\tblank://d1/k\n2\tblank://d2/k\n".to_vec());
}

#[test]
fn subject_and_predicate_ids() {
    let mut idx = NodeIndex::create("doc");
    assert_eq!(idx.subj_id(&Subject::BNode("b0".to_string())), 1);
    assert_eq!(idx.pred_id(&Predicate::IriRef("http://p".to_string())), 2);
    assert_eq!(idx.subj_id(&Subject::IriRef("http://p".to_string())), 2);
    assert_eq!(idx.node_id("blank://doc/b0"), 1);
}

#[test]
fn literal_ids_decrease_without_dedup() {
    let mut lits = LitWriter::create();
    assert!(lits.load(-7).is_ok());
    assert_eq!(lits.lit_id("x"), -8);
    assert_eq!(lits.lit_id("x"), -9);
    assert_eq!(lits.counter_value(), 9);
    assert_eq!(lits.take_output(), b"-8\tx\n-9\tx\n".to_vec());
}

#[test]
fn literal_text_is_escaped() {
    let mut lits = LitWriter::create();
    assert_eq!(lits.lit_id("a\tb\nc\\d"), -1);
    assert_eq!(lits.take_output(), b"-1\ta\\tb\\nc\\\\d\n".to_vec());
}

#[test]
fn invalid_literal_seed_is_refused() {
    let mut lits = LitWriter::create();
    assert!(matches!(lits.load(1), Err(LitSeedError::OutOfRange)));
    assert!(matches!(lits.load(i64::MIN), Err(LitSeedError::OutOfRange)));
    assert_eq!(lits.lit_id("x"), -1);
}

#[test]
fn object_ids_by_variant() {
    let mut nodes = NodeIndex::create("doc");
    let mut lits = LitWriter::create();
    assert_eq!(obj_id(&mut nodes, &mut lits, &Object::IriRef("http://o".to_string())), 1);
    assert_eq!(obj_id(&mut nodes, &mut lits, &Object::BNode("k".to_string())), 2);
    assert_eq!(obj_id(&mut nodes, &mut lits, &Object::Lit("v".to_string())), -1);
    assert_eq!(obj_id(&mut nodes, &mut lits, &Object::Lit("v".to_string())), -2);
}

#[test]
fn parsed_lines_are_resolved() {
    let mut imp = TripleImporter::new("doc");
    let out = imp.process_line("<http://a> <http://b> \"hello\" .");
    assert_eq!(out, LineOutcome::Written);
    let out = imp.process_line("_:n1 <http://b> <http://a> .");
    assert_eq!(out, LineOutcome::Written);
    assert_eq!(imp.take_triples(), b"1\t2\t-1\n3\t2\t1\n".to_vec());
    assert_eq!(
        imp.nodes.take_output(),
        b"1\thttp://a\n2\thttp://b\n3\tblank://doc/n1\n".to_vec()
    );
    assert_eq!(imp.lits.take_output(), b"-1\thello\n".to_vec());
}

#[test]
fn malformed_line_is_skipped_without_allocation() {
    let mut imp = TripleImporter::new("doc");
    assert_eq!(imp.process_line("<http://a> <http://b> \"x\" ."), LineOutcome::Written);
    assert_eq!(imp.process_line("<http://c> this is not a statement"), LineOutcome::Malformed);
    assert_eq!(imp.process_line("<http://d> <http://b> \"y\" ."), LineOutcome::Written);
    assert_eq!(imp.take_triples(), b"1\t2\t-1\n3\t2\t-2\n".to_vec());
    assert_eq!(imp.nodes.take_output(), b"1\thttp://a\n2\thttp://b\n3\thttp://d\n".to_vec());
}

#[test]
fn comment_line_is_empty() {
    let mut imp = TripleImporter::new("doc");
    assert_eq!(imp.process_line("# just a comment"), LineOutcome::Empty);
    assert_eq!(imp.process_line(""), LineOutcome::Empty);
    assert!(imp.take_triples().is_empty());
    assert!(imp.has_room());
}

#[test]
fn undecodable_escape_is_malformed() {
    let mut imp = TripleImporter::new("doc");
    assert_eq!(imp.process_line("<http://a/\\uD800> <http://b> <http://c> ."), LineOutcome::Malformed);
    assert_eq!(imp.process_line("<http://a> <http://b> \"\\U110000\" ."), LineOutcome::Malformed);
    assert!(imp.take_triples().is_empty());
    assert!(imp.nodes.take_output().is_empty());
    assert_eq!(imp.process_line("<http://a/\\u00E9> <http://b> \"caf\\u00E9\" ."), LineOutcome::Written);
    assert_eq!(imp.take_triples(), b"1\t2\t-1\n".to_vec());
    assert_eq!(imp.nodes.take_output(), "1\thttp://a/\u{e9}\n2\thttp://b\n".as_bytes().to_vec());
    assert_eq!(imp.lits.take_output(), "-1\tcaf\u{e9}\n".as_bytes().to_vec());
}

#[test]
fn escape_check() {
    assert!(escapes_ok(b"<http://a/\\u00e9> ."));
    assert!(escapes_ok(b"\\uD7FF \\uE000 \\U10FFFF \\uD8"));
    assert!(!escapes_ok(b"x \\udfff"));
    assert!(!escapes_ok(b"\\U00D800"));
    assert!(!escapes_ok(b"\\U110000"));
}
