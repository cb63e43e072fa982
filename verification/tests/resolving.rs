use code_metrics::resolve::{
    is_source_file, resolve, Reply, Request, Resolution, Resolver,
};
use code_metrics::syntax::{ImplTarget, Kind, ModuleReference, Node, Visibility};
use code_metrics::{ItemCount, Overflow, AMF};

fn count(public: u32, private: u32) -> ItemCount {
    ItemCount::new(public, private).unwrap()
}

fn file(items: Vec<Node>) -> Node {
    Node::new(Kind::Other, items)
}

fn block(name: &str, members: Vec<Node>) -> Node {
    let target = ImplTarget::Path { segments: vec![name.to_string()], generic: false };
    Node::new(Kind::Impl { target }, members)
}

fn method(name: &str, visibility: Visibility) -> Node {
    Node::new(Kind::Method { identifier: name.to_string(), visibility }, vec![])
}

fn declared(name: &str) -> Node {
    Node::new(
        Kind::Module(ModuleReference { identifier: name.to_string(), has_inline_body: false }),
        vec![],
    )
}

fn path(components: &[&str]) -> Vec<String> {
    components.iter().map(|c| c.to_string()).collect()
}

fn started(entry: &Node) -> Resolver {
    let mut counter = AMF::from_path(Some(Vec::new()));
    assert_eq!(counter.visit_file(entry), Ok(()));
    Resolver::new(counter)
}

fn probe(resolver: &Resolver) -> (Vec<String>, Vec<String>) {
    match resolver.request() {
        Request::Probe { file, directory } => (file, directory),
        other => panic!("no probe: {:?}", other),
    }
}

fn read(resolver: &Resolver) -> Vec<String> {
    match resolver.request() {
        Request::Read { file } => file,
        other => panic!("no read: {:?}", other),
    }
}

fn list(resolver: &Resolver) -> Vec<String> {
    match resolver.request() {
        Request::List { directory } => directory,
        other => panic!("no list: {:?}", other),
    }
}

fn done(resolver: &Resolver) -> bool {
    matches!(resolver.request(), Request::Done)
}

#[test]
fn the_file_comes_before_the_directory() {
    assert_eq!(resolve(true, true), Resolution::File);
    assert_eq!(resolve(true, false), Resolution::File);
    assert_eq!(resolve(false, true), Resolution::Directory);
    assert_eq!(resolve(false, false), Resolution::Missing);
}

#[test]
fn source_files_end_in_the_extension() {
    assert!(is_source_file("a.rs"));
    assert!(is_source_file("mod.rs"));
    assert!(is_source_file("a.b.rs"));
    assert!(is_source_file("..rs"));
    assert!(is_source_file("\u{e4}.rs"));
    assert!(is_source_file("\u{1f980}\u{1f980}.rs"));
    assert!(!is_source_file(".rs"));
    assert!(!is_source_file("rs"));
    assert!(!is_source_file(""));
    assert!(!is_source_file("a.r"));
    assert!(!is_source_file("a.rs.bak"));
    assert!(!is_source_file("a.txt"));
    assert!(!is_source_file("a.RS"));
    assert!(!is_source_file("ars"));
    assert!(!is_source_file("a.rs "));
}

#[test]
fn a_module_in_a_file_beside_the_entry_is_counted() {
    let entry = file(vec![declared("sub")]);
    let sub = file(vec![block("S", vec![method("new", Visibility::Public)])]);

    let mut resolver = started(&entry);
    let (candidate, directory) = probe(&resolver);
    assert_eq!(candidate, path(&["sub.rs"]));
    assert_eq!(directory, path(&["sub"]));
    assert_eq!(resolver.reply(Reply::Probed { is_file: true, is_directory: false }), Ok(()));
    assert_eq!(read(&resolver), path(&["sub.rs"]));
    assert_eq!(resolver.reply(Reply::Parsed(sub)), Ok(()));
    assert!(done(&resolver));

    let table = resolver.into_table();
    assert_eq!(table.len(), 1);
    assert_eq!(table.get("S"), Some(count(1, 0)));
}

#[test]
fn a_file_wins_over_a_directory_of_the_same_name() {
    let mut resolver = started(&file(vec![declared("sub")]));
    assert_eq!(resolver.reply(Reply::Probed { is_file: true, is_directory: true }), Ok(()));
    assert_eq!(read(&resolver), path(&["sub.rs"]));
}

#[test]
fn a_missing_module_is_skipped() {
    let entry = file(vec![
        declared("gone"),
        block("T", vec![method("a", Visibility::Inherited)]),
    ]);
    let mut resolver = started(&entry);
    assert_eq!(probe(&resolver).0, path(&["gone.rs"]));
    assert_eq!(resolver.reply(Reply::Probed { is_file: false, is_directory: false }), Ok(()));
    assert!(done(&resolver));
    let table = resolver.into_table();
    assert_eq!(table.len(), 1);
    assert_eq!(table.get("T"), Some(count(0, 1)));
}

#[test]
fn an_entry_without_modules_needs_nothing() {
    let entry = file(vec![block("T", vec![method("a", Visibility::Public)])]);
    let mut resolver = started(&entry);
    assert!(done(&resolver));
    assert_eq!(resolver.reply(Reply::Probed { is_file: true, is_directory: true }), Ok(()));
    assert_eq!(resolver.reply(Reply::Listed(path(&["a.rs"]))), Ok(()));
    assert_eq!(resolver.reply(Reply::Parsed(file(vec![declared("x")]))), Ok(()));
    assert!(done(&resolver));
    assert_eq!(resolver.into_table().get("T"), Some(count(1, 0)));
}

#[test]
fn a_counter_without_a_base_starts_no_work() {
    let mut counter = AMF::new();
    assert_eq!(counter.visit_file(&file(vec![declared("sub")])), Ok(()));
    let resolver = Resolver::new(counter);
    assert!(done(&resolver));
}

#[test]
fn the_source_files_of_a_module_directory_are_counted() {
    let entry = file(vec![declared("sub")]);
    let one = file(vec![block("S", vec![method("a", Visibility::Public)])]);
    let two = file(vec![
        block("S", vec![method("b", Visibility::Inherited)]),
        block("T", vec![method("c", Visibility::Public)]),
    ]);

    let mut resolver = started(&entry);
    assert_eq!(resolver.reply(Reply::Probed { is_file: false, is_directory: true }), Ok(()));
    assert_eq!(list(&resolver), path(&["sub"]));
    let names = path(&["one.rs", "notes.txt", "two.rs", "deeper", ".rs"]);
    assert_eq!(resolver.reply(Reply::Listed(names)), Ok(()));

    assert_eq!(read(&resolver), path(&["sub", "two.rs"]));
    assert_eq!(resolver.reply(Reply::Parsed(two)), Ok(()));
    assert_eq!(read(&resolver), path(&["sub", "one.rs"]));
    assert_eq!(resolver.reply(Reply::Parsed(one)), Ok(()));
    assert!(done(&resolver));

    let table = resolver.into_table();
    assert_eq!(table.len(), 2);
    assert_eq!(table.get("S"), Some(count(1, 1)));
    assert_eq!(table.get("T"), Some(count(1, 0)));
}

#[test]
fn a_file_looks_its_modules_up_beside_itself() {
    let entry = file(vec![declared("sub")]);
    let sub = file(vec![declared("inner"), block("S", vec![method("a", Visibility::Public)])]);
    let inner = file(vec![block("S", vec![method("b", Visibility::Public)])]);

    let mut resolver = started(&entry);
    assert_eq!(resolver.reply(Reply::Probed { is_file: true, is_directory: false }), Ok(()));
    assert_eq!(resolver.reply(Reply::Parsed(sub)), Ok(()));
    let (candidate, directory) = probe(&resolver);
    assert_eq!(candidate, path(&["inner.rs"]));
    assert_eq!(directory, path(&["inner"]));
    assert_eq!(resolver.reply(Reply::Probed { is_file: true, is_directory: false }), Ok(()));
    assert_eq!(read(&resolver), path(&["inner.rs"]));
    assert_eq!(resolver.reply(Reply::Parsed(inner)), Ok(()));
    assert!(done(&resolver));
    assert_eq!(resolver.into_table().get("S"), Some(count(2, 0)));
}

#[test]
fn a_file_of_a_module_directory_looks_its_modules_up_in_it() {
    let entry = file(vec![declared("sub")]);
    let part = file(vec![declared("inner")]);

    let mut resolver = started(&entry);
    assert_eq!(resolver.reply(Reply::Probed { is_file: false, is_directory: true }), Ok(()));
    assert_eq!(resolver.reply(Reply::Listed(path(&["part.rs"]))), Ok(()));
    assert_eq!(read(&resolver), path(&["sub", "part.rs"]));
    assert_eq!(resolver.reply(Reply::Parsed(part)), Ok(()));
    let (candidate, directory) = probe(&resolver);
    assert_eq!(candidate, path(&["sub", "inner.rs"]));
    assert_eq!(directory, path(&["sub", "inner"]));
    assert_eq!(resolver.reply(Reply::Probed { is_file: false, is_directory: true }), Ok(()));
    assert_eq!(list(&resolver), path(&["sub", "inner"]));
    assert_eq!(resolver.reply(Reply::Listed(Vec::new())), Ok(()));
    assert!(done(&resolver));
    assert_eq!(resolver.into_table().len(), 0);
}

#[test]
fn every_declared_module_is_followed() {
    let entry = file(vec![declared("a"), declared("b")]);
    let a = file(vec![block("A", vec![method("x", Visibility::Public)])]);
    let b = file(vec![block("B", vec![method("y", Visibility::Inherited)])]);

    let mut resolver = started(&entry);
    assert_eq!(probe(&resolver).0, path(&["b.rs"]));
    assert_eq!(resolver.reply(Reply::Probed { is_file: true, is_directory: false }), Ok(()));
    assert_eq!(resolver.reply(Reply::Parsed(b)), Ok(()));
    assert_eq!(probe(&resolver).0, path(&["a.rs"]));
    assert_eq!(resolver.reply(Reply::Probed { is_file: true, is_directory: false }), Ok(()));
    assert_eq!(resolver.reply(Reply::Parsed(a)), Ok(()));
    assert!(done(&resolver));
    let table = resolver.into_table();
    assert_eq!(table.get("A"), Some(count(1, 0)));
    assert_eq!(table.get("B"), Some(count(0, 1)));
}

#[test]
fn a_reply_to_another_request_changes_nothing() {
    let mut resolver = started(&file(vec![declared("sub")]));
    let stray = file(vec![block("X", vec![method("a", Visibility::Public)])]);
    assert_eq!(resolver.reply(Reply::Parsed(stray)), Ok(()));
    assert_eq!(resolver.reply(Reply::Listed(path(&["x.rs"]))), Ok(()));
    assert_eq!(probe(&resolver).0, path(&["sub.rs"]));
    assert_eq!(resolver.reply(Reply::Probed { is_file: true, is_directory: false }), Ok(()));
    assert_eq!(resolver.reply(Reply::Probed { is_file: true, is_directory: false }), Ok(()));
    assert_eq!(resolver.reply(Reply::Listed(path(&["x.rs"]))), Ok(()));
    assert_eq!(read(&resolver), path(&["sub.rs"]));
    assert_eq!(resolver.into_table().len(), 0);
}

#[test]
fn a_count_out_of_range_stops_the_resolver_where_it_is() {
    let mut counter = AMF::from_path(Some(Vec::new()));
    counter.tree.add("S".to_string(), count(u32::MAX, 0)).unwrap();
    assert_eq!(counter.visit_file(&file(vec![declared("sub")])), Ok(()));
    let mut resolver = Resolver::new(counter);
    assert_eq!(resolver.reply(Reply::Probed { is_file: true, is_directory: false }), Ok(()));
    let sub = file(vec![declared("more"), block("S", vec![method("a", Visibility::Public)])]);
    assert_eq!(resolver.reply(Reply::Parsed(sub)), Err(Overflow));
    assert_eq!(read(&resolver), path(&["sub.rs"]));
    let fine = file(vec![block("T", vec![method("a", Visibility::Public)])]);
    assert_eq!(resolver.reply(Reply::Parsed(fine)), Ok(()));
    assert!(done(&resolver));
    let table = resolver.into_table();
    assert_eq!(table.get("S"), Some(count(u32::MAX, 0)));
    assert_eq!(table.get("T"), Some(count(1, 0)));
}
