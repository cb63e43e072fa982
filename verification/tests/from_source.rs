use code_metrics::resolve::{Reply, Request, Resolver};
use code_metrics::syntax::{ImplTarget, Kind, ModuleReference, Node, Visibility};
use code_metrics::{CognitiveComplexity, ItemCount, Table, AMF};
use syn::visit::{self, Visit};

/// Builds the tree of a parsed file: one node for each construct that has a
/// kind of its own, and what lies between them left out.
struct Builder {
    open: Vec<Vec<Node>>,
}

impl Builder {
    fn enter(&mut self) {
        self.open.push(Vec::new());
    }

    fn leave(&mut self, kind: Kind) {
        let children = self.open.pop().unwrap();
        self.open.last_mut().unwrap().push(Node::new(kind, children));
    }
}

fn visibility(vis: &syn::Visibility) -> Visibility {
    match vis {
        syn::Visibility::Public(_) => Visibility::Public,
        syn::Visibility::Crate(_) => Visibility::Crate,
        syn::Visibility::Restricted(_) => Visibility::Restricted,
        syn::Visibility::Inherited => Visibility::Inherited,
    }
}

fn target(ty: &syn::Type) -> ImplTarget {
    match ty {
        syn::Type::Path(path) if path.qself.is_none() => ImplTarget::Path {
            segments: path.path.segments.iter().map(|s| s.ident.to_string()).collect(),
            generic: path.path.segments.iter().any(|s| !s.arguments.is_empty()),
        },
        _ => ImplTarget::Other,
    }
}

impl<'ast> Visit<'ast> for Builder {
    fn visit_item_fn(&mut self, node: &'ast syn::ItemFn) {
        self.enter();
        visit::visit_item_fn(self, node);
        self.leave(Kind::Function { identifier: node.sig.ident.to_string() });
    }

    fn visit_impl_item_method(&mut self, node: &'ast syn::ImplItemMethod) {
        self.enter();
        visit::visit_impl_item_method(self, node);
        self.leave(Kind::Method {
            identifier: node.sig.ident.to_string(),
            visibility: visibility(&node.vis),
        });
    }

    fn visit_expr_closure(&mut self, node: &'ast syn::ExprClosure) {
        self.enter();
        visit::visit_expr_closure(self, node);
        self.leave(Kind::Closure);
    }

    fn visit_item_impl(&mut self, node: &'ast syn::ItemImpl) {
        self.enter();
        visit::visit_item_impl(self, node);
        self.leave(Kind::Impl { target: target(&node.self_ty) });
    }

    fn visit_item_mod(&mut self, node: &'ast syn::ItemMod) {
        self.enter();
        visit::visit_item_mod(self, node);
        self.leave(Kind::Module(ModuleReference {
            identifier: node.ident.to_string(),
            has_inline_body: node.content.is_some(),
        }));
    }

    fn visit_expr_if(&mut self, node: &'ast syn::ExprIf) {
        self.enter();
        visit::visit_expr_if(self, node);
        self.leave(Kind::If { has_else: node.else_branch.is_some() });
    }

    fn visit_expr_match(&mut self, node: &'ast syn::ExprMatch) {
        self.enter();
        visit::visit_expr_match(self, node);
        self.leave(Kind::Match);
    }

    fn visit_arm(&mut self, node: &'ast syn::Arm) {
        self.enter();
        visit::visit_arm(self, node);
        self.leave(Kind::Arm { guarded: node.guard.is_some() });
    }

    fn visit_expr_loop(&mut self, node: &'ast syn::ExprLoop) {
        self.enter();
        visit::visit_expr_loop(self, node);
        self.leave(Kind::Loop);
    }

    fn visit_expr_while(&mut self, node: &'ast syn::ExprWhile) {
        self.enter();
        visit::visit_expr_while(self, node);
        self.leave(Kind::Loop);
    }

    fn visit_expr_for_loop(&mut self, node: &'ast syn::ExprForLoop) {
        self.enter();
        visit::visit_expr_for_loop(self, node);
        self.leave(Kind::Loop);
    }
}

fn tree_of(text: &str) -> Node {
    let parsed = syn::parse_file(text).unwrap();
    let mut builder = Builder { open: vec![Vec::new()] };
    builder.visit_file(&parsed);
    Node::new(Kind::Other, builder.open.pop().unwrap())
}

fn count(public: u32, private: u32) -> ItemCount {
    ItemCount::new(public, private).unwrap()
}

fn entries(table: &Table<u64>) -> Vec<(String, u64)> {
    let mut all: Vec<(String, u64)> = table
        .keys()
        .iter()
        .map(|key| (key.clone(), table.get(key).unwrap()))
        .collect();
    all.sort();
    all
}

fn test_amf_over_str(file: &str) -> ItemCount {
    let ast = tree_of(file);
    let mut counter = AMF::new();
    counter.visit_file(&ast).unwrap();
    counter.tree.get("Tstruct").unwrap()
}

fn test_cc_over_str(file: &str) -> Table<u64> {
    let ast = tree_of(file);
    let mut complexity = CognitiveComplexity::new();
    complexity.visit_file(&ast).unwrap();
    complexity.tree
}

#[test]
fn amf_test() {
    let amf_test_file: &str = "
struct Tstruct {}

impl Tstruct {
    fn tfn() { }
    pub fn pubtfn() { }
}

trait Ttrait {
    fn trfn();
}

impl Ttrait for Tstruct {
    fn trfn() { }
}

mod submod {
    impl Tstruct {
        pub fn submodstruct() {}
    }
}
";

    assert_eq!(test_amf_over_str(amf_test_file), count(2, 2));
}

#[test]
fn cc_test() {
    let cc_test_file: &str = "
            pub fn bubble_sort_rust() {
                let mut arr: [i32; 4] = [4, 8, 3, 1];
                let mut new_len: usize;
                let mut len = arr.len();
                loop {
                    new_len = 0;
                    for i in 1..len {
                        if arr[i - 1] > arr[i] {
                            arr.swap(i - 1, i);
                            new_len = i;
                        }
                    }
                    if new_len == 0 {
                        break;
                    }
                    len = new_len;
                }
            }
        ";
    let check = vec![("bubble_sort_rust".to_string(), 1)];
    assert_eq!(entries(&test_cc_over_str(cc_test_file)), check);
}

#[test]
fn if_else_and_guarded_match_from_text() {
    let text = "
fn classify(x: i32, flag: bool) -> i32 {
    let base = if flag { 1 } else { 2 };
    match x {
        0 => base,
        n if n < 0 => -base,
        _ => base + 1,
    }
}
";
    assert_eq!(entries(&test_cc_over_str(text)), vec![("classify".to_string(), 4)]);
}

#[test]
fn nested_functions_and_closures_from_text() {
    let text = "
fn outer(v: Vec<i32>) -> i32 {
    fn inner(x: i32) -> i32 {
        if x > 0 { x } else { -x }
    }
    let f = |x: i32| match x { 0 => 1, y if y > 9 => 2, _ => 3 };
    while v.len() > 100 {}
    v.iter().map(|x| inner(*x) + f(*x)).sum()
}
";
    assert_eq!(
        entries(&test_cc_over_str(text)),
        vec![("inner".to_string(), 2), ("outer".to_string(), 1)]
    );
}

#[test]
fn targets_from_text() {
    let text = "
struct Plain;
struct Wrapper<T>(T);
impl Plain { pub fn a() {} fn b() {} pub(crate) fn c() {} }
impl<T> Wrapper<T> { pub fn d() {} }
impl<T> Tr for (T, T) { fn e() {} }
impl Tr for &Plain { fn f() {} }
impl outer::Inner { pub fn g() {} }
impl Unit {}
";
    let mut counter = AMF::new();
    counter.visit_file(&tree_of(text)).unwrap();
    assert_eq!(counter.tree.get("Plain"), Some(count(1, 2)));
    assert_eq!(counter.tree.get("Wrapper"), None);
    assert_eq!(counter.tree.get("outer"), Some(count(1, 0)));
    assert_eq!(counter.tree.get("Unit"), None);
    assert_eq!(counter.tree.len(), 2);
}

#[test]
fn a_module_beside_the_entry_from_text() {
    let entry = tree_of("mod sub;\nfn main() {}\n");
    let sub = tree_of("pub struct S;\nimpl S { pub fn new() -> S { S } }\n");

    let mut counter = AMF::from_path(Some(Vec::new()));
    counter.visit_file(&entry).unwrap();
    assert_eq!(counter.tree.len(), 0);
    let mut resolver = Resolver::new(counter);
    match resolver.request() {
        Request::Probe { file, directory } => {
            assert_eq!(file, vec!["sub.rs".to_string()]);
            assert_eq!(directory, vec!["sub".to_string()]);
        }
        other => panic!("no probe: {:?}", other),
    }
    resolver.reply(Reply::Probed { is_file: true, is_directory: false }).unwrap();
    assert!(matches!(resolver.request(), Request::Read { .. }));
    resolver.reply(Reply::Parsed(sub)).unwrap();
    assert!(matches!(resolver.request(), Request::Done));
    let table = resolver.into_table();
    assert_eq!(table.len(), 1);
    assert_eq!(table.get("S"), Some(count(1, 0)));
}

#[test]
fn the_sample_project_from_text() {
    let text = "
struct Tstruct {}

impl Tstruct {
    fn tfn() { }
}

trait Ttrait {
    fn trfn();
}

impl Ttrait for Tstruct {
    pub fn trfn() { }
}

mod submod {
    impl Tstruct {
        fn tfn() { }
    }
}

mod extsubmod;

fn main() {
    println!(\"Hello, world!\");
}
";
    let tree = tree_of(text);
    let mut counter = AMF::from_path(Some(Vec::new()));
    counter.visit_file(&tree).unwrap();
    assert_eq!(counter.tree.get("Tstruct"), Some(count(1, 2)));
    assert_eq!(counter.take_references(), vec!["extsubmod".to_string()]);
    assert_eq!(
        entries(&test_cc_over_str(text)),
        vec![("main".to_string(), 1), ("tfn".to_string(), 2), ("trfn".to_string(), 1)]
    );
}
