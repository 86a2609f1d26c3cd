use wgsl_imports::errors::ImportResolutionError;
use wgsl_imports::filetree::FileTree;
use wgsl_imports::module::Module;
use wgsl_imports::names::NameAssignment;
use wgsl_imports::order::ImportOrder;
use wgsl_imports::paths::{AbsoluteWgslPath, DirPath};
use wgsl_imports::scan::all_imports_in_source;
use wgsl_imports::strutil::{decimal_string, space_string};
use wgsl_imports::exports::{strip_exports, Export};
use wgsl_imports::source::{contains_define, Sourcecode, SourcecodeError};
use wgsl_imports::mangle::{decompose_mangled_name, demangle_mod_names};

fn wpath(components: &[&str]) -> AbsoluteWgslPath {
    let v: Vec<String> = components.iter().map(|c| c.to_string()).collect();
    AbsoluteWgslPath::new(v).expect("components must form an absolute wgsl path")
}

fn dpath(components: &[&str]) -> DirPath {
    let v: Vec<String> = components.iter().map(|c| c.to_string()).collect();
    DirPath::new(v).expect("components must form a directory path")
}

fn snapshot(files: &[(&[&str], &str)]) -> FileTree {
    let mut t = FileTree::new();
    for (comps, text) in files {
        assert!(t.insert(wpath(comps), text.to_string()));
    }
    t
}

fn module(components: &[&str]) -> Module {
    Module::from_path(wpath(components))
}

fn alias_of(names: &NameAssignment, components: &[&str]) -> String {
    names
        .lookup(&module(components))
        .expect("module must have an alias")
        .clone()
}

fn order_paths(order: Vec<Module>) -> Vec<String> {
    order.iter().map(|m| m.display_string()).collect()
}

#[test]
fn scan_finds_each_directive_form() {
    let source = "#import foo.wgsl\n # import bar/baz.wgsl as b\n#import lib.wgsl::item\n\
                  #import set.wgsl::{a, b}\n#import items.wgsl one, two\n";
    let found = all_imports_in_source(source);
    assert_eq!(
        found,
        vec![
            "foo.wgsl".to_string(),
            "bar/baz.wgsl".to_string(),
            "lib.wgsl".to_string(),
            "set.wgsl".to_string(),
            "items.wgsl".to_string(),
        ]
    );
}

#[test]
fn scan_deduplicates_and_ignores_non_directives() {
    // the second a.wgsl collapses; the bare `import` without `#` counts too;
    // a directive not at the start of its line does not
    let source = "#import a.wgsl\nlet x = 1; // #import not.wgsl at line start \n#import a.wgsl\n\
                  import b.wgsl\n";
    let found = all_imports_in_source(source);
    assert_eq!(found, vec!["a.wgsl".to_string(), "b.wgsl".to_string()]);
}

#[test]
fn resolve_prefers_importer_relative() {
    // the same request resolves both next to the importer and at the root:
    // the importer-relative file must win
    let tree = snapshot(&[
        (&["proj", "a", "main.wgsl"], ""),
        (&["proj", "a", "util.wgsl"], ""),
        (&["proj", "util.wgsl"], ""),
    ]);
    let importer = module(&["proj", "a", "main.wgsl"]);
    let root = dpath(&["proj"]);
    let m = Module::resolve_module(&tree, &importer, &root, "util.wgsl").expect("resolves");
    assert_eq!(m.display_string(), "/proj/a/util.wgsl");
}

#[test]
fn resolve_falls_back_to_project_root() {
    let tree = snapshot(&[
        (&["proj", "a", "main.wgsl"], ""),
        (&["proj", "util.wgsl"], ""),
    ]);
    let importer = module(&["proj", "a", "main.wgsl"]);
    let root = dpath(&["proj"]);
    let m = Module::resolve_module(&tree, &importer, &root, "util.wgsl").expect("resolves");
    assert_eq!(m.display_string(), "/proj/util.wgsl");
}

#[test]
fn resolve_canonicalizes_dot_segments() {
    let tree = snapshot(&[
        (&["proj", "a", "main.wgsl"], ""),
        (&["proj", "b", "dep.wgsl"], ""),
    ]);
    let importer = module(&["proj", "a", "main.wgsl"]);
    let root = dpath(&["proj"]);
    let m = Module::resolve_module(&tree, &importer, &root, ".././b/./dep.wgsl").expect("resolves");
    assert_eq!(m.display_string(), "/proj/b/dep.wgsl");
}

#[test]
fn unresolved_reports_both_searched_locations() {
    let tree = snapshot(&[(&["proj", "main.wgsl"], "")]);
    let importer = module(&["proj", "main.wgsl"]);
    let root = dpath(&["proj", "shaders"]);
    match Module::resolve_module(&tree, &importer, &root, "missing.wgsl") {
        Ok(_) => panic!("must not resolve"),
        Err(ImportResolutionError::Unresolved { requested, importer: imp, searched }) => {
            assert_eq!(requested, "missing.wgsl");
            assert_eq!(imp.display_string(), "/proj/main.wgsl");
            assert_eq!(
                searched,
                vec![
                    "/proj/missing.wgsl".to_string(),
                    "/proj/shaders/missing.wgsl".to_string(),
                ]
            );
        },
        Err(_) => panic!("wrong error kind"),
    }
}

#[test]
fn unresolved_collapses_equal_candidates() {
    let tree = snapshot(&[(&["proj", "main.wgsl"], "")]);
    let importer = module(&["proj", "main.wgsl"]);
    let root = dpath(&["proj"]);
    match Module::resolve_module(&tree, &importer, &root, "missing.wgsl") {
        Err(ImportResolutionError::Unresolved { searched, .. }) => {
            assert_eq!(searched, vec!["/proj/missing.wgsl".to_string()]);
        },
        _ => panic!("must fail unresolved"),
    }
}

#[test]
fn single_import_order_and_alias() {
    // root main.wgsl imports lib.wgsl; lib imports nothing
    let tree = snapshot(&[
        (&["proj", "main.wgsl"], "#import lib.wgsl\n"),
        (&["proj", "lib.wgsl"], "fn f() {}\n"),
    ]);
    let root_module = module(&["proj", "main.wgsl"]);
    let root = dpath(&["proj"]);
    let order = ImportOrder::calculate(&tree, &root_module, &root).expect("resolution succeeds");
    let names = order.reduced_names();
    assert_eq!(alias_of(&names, &["proj", "lib.wgsl"]), "lib");
    let mods = order_paths(order.modules());
    assert_eq!(mods, vec!["/proj/lib.wgsl".to_string()]);
}

#[test]
fn same_stem_gets_distinct_aliases() {
    // a/util.wgsl and b/util.wgsl both imported by the root: the aliases
    // gain one path component each and never collide
    let tree = snapshot(&[
        (&["proj", "main.wgsl"], "#import a/util.wgsl\n#import b/util.wgsl\n"),
        (&["proj", "a", "util.wgsl"], ""),
        (&["proj", "b", "util.wgsl"], ""),
    ]);
    let root_module = module(&["proj", "main.wgsl"]);
    let root = dpath(&["proj"]);
    let order = ImportOrder::calculate(&tree, &root_module, &root).expect("resolution succeeds");
    let names = order.reduced_names();
    let a = alias_of(&names, &["proj", "a", "util.wgsl"]);
    let b = alias_of(&names, &["proj", "b", "util.wgsl"]);
    assert_eq!(a, "util_a");
    assert_eq!(b, "util_b");
    assert_ne!(a, b);
    let mods = order_paths(order.modules());
    assert_eq!(mods.len(), 2);
    assert!(mods.contains(&"/proj/a/util.wgsl".to_string()));
    assert!(mods.contains(&"/proj/b/util.wgsl".to_string()));
}

#[test]
fn two_file_cycle_is_reported() {
    let tree = snapshot(&[
        (&["proj", "a.wgsl"], "#import b.wgsl\n"),
        (&["proj", "b.wgsl"], "#import a.wgsl\n"),
    ]);
    let root_module = module(&["proj", "a.wgsl"]);
    let root = dpath(&["proj"]);
    match ImportOrder::calculate(&tree, &root_module, &root) {
        Ok(_) => panic!("the cycle must be rejected"),
        Err(e) => {
            assert!(e.is_cycle());
            match e {
                ImportResolutionError::Cycle { cycle_path } => {
                    let shown: Vec<String> =
                        cycle_path.iter().map(|m| m.display_string()).collect();
                    assert_eq!(
                        shown,
                        vec!["/proj/a.wgsl".to_string(), "/proj/b.wgsl".to_string()]
                    );
                },
                _ => unreachable!(),
            }
        },
    }
}

#[test]
fn missing_import_fails_resolution() {
    let tree = snapshot(&[(&["proj", "main.wgsl"], "#import missing.wgsl\n")]);
    let root_module = module(&["proj", "main.wgsl"]);
    let root = dpath(&["proj"]);
    match ImportOrder::calculate(&tree, &root_module, &root) {
        Err(ImportResolutionError::Unresolved { requested, searched, .. }) => {
            assert_eq!(requested, "missing.wgsl");
            assert_eq!(searched.len(), 1);
        },
        _ => panic!("must fail unresolved"),
    }
}

#[test]
fn diamond_shares_one_node() {
    // root imports x and y; both import z: z appears exactly once, before
    // both x and y
    let tree = snapshot(&[
        (&["proj", "main.wgsl"], "#import x.wgsl\n#import y.wgsl\n"),
        (&["proj", "x.wgsl"], "#import z.wgsl\n"),
        (&["proj", "y.wgsl"], "#import z.wgsl\n"),
        (&["proj", "z.wgsl"], ""),
    ]);
    let root_module = module(&["proj", "main.wgsl"]);
    let root = dpath(&["proj"]);
    let order = ImportOrder::calculate(&tree, &root_module, &root).expect("resolution succeeds");
    assert_eq!(order.node_count(), 4);
    let mods = order_paths(order.modules());
    assert_eq!(mods.len(), 3);
    let z = mods.iter().position(|p| p == "/proj/z.wgsl").expect("z present once");
    let x = mods.iter().position(|p| p == "/proj/x.wgsl").expect("x present");
    let y = mods.iter().position(|p| p == "/proj/y.wgsl").expect("y present");
    assert_eq!(mods.iter().filter(|p| *p == "/proj/z.wgsl").count(), 1);
    assert!(z < x);
    assert!(z < y);
}

#[test]
fn rerun_gives_identical_results() {
    // an unchanged snapshot yields the same order and the same aliases
    let tree = snapshot(&[
        (&["proj", "main.wgsl"], "#import a/util.wgsl\n#import b/util.wgsl\n#import z.wgsl\n"),
        (&["proj", "a", "util.wgsl"], "#import z.wgsl\n"),
        (&["proj", "b", "util.wgsl"], ""),
        (&["proj", "z.wgsl"], ""),
    ]);
    let root_module = module(&["proj", "main.wgsl"]);
    let root = dpath(&["proj"]);
    let o1 = ImportOrder::calculate(&tree, &root_module, &root).expect("first pass");
    let o2 = ImportOrder::calculate(&tree, &root_module, &root).expect("second pass");
    let n1 = o1.reduced_names();
    let n2 = o2.reduced_names();
    assert_eq!(n1.names, n2.names);
    assert_eq!(order_paths(o1.modules()), order_paths(o2.modules()));
}

#[test]
fn exhausted_path_falls_back_to_index() {
    // u.wgsl at the filesystem root has no further component to consume, so
    // its refined alias takes the fallback suffix: a separator no path
    // component can contain, then its node number; uniqueness still holds
    let tree = snapshot(&[
        (&["main.wgsl"], "#import u.wgsl\n#import d/u.wgsl\n"),
        (&["u.wgsl"], ""),
        (&["d", "u.wgsl"], ""),
    ]);
    let root_module = module(&["main.wgsl"]);
    let root = dpath(&[]);
    let order = ImportOrder::calculate(&tree, &root_module, &root).expect("resolution succeeds");
    let names = order.reduced_names();
    let top = alias_of(&names, &["u.wgsl"]);
    let nested = alias_of(&names, &["d", "u.wgsl"]);
    assert_ne!(top, nested);
    assert_eq!(nested, "u_d");
    assert_eq!(top, "u/1");
}

#[test]
fn module_accessors() {
    let m = module(&["proj", "shaders", "a.b.wgsl"]);
    assert_eq!(m.file_name(), "a.b");
    assert_eq!(m.display_string(), "/proj/shaders/a.b.wgsl");
    assert_eq!(m.nth_path_component(0), Some("a.b.wgsl".to_string()));
    assert_eq!(m.nth_path_component(1), Some("shaders".to_string()));
    assert_eq!(m.nth_path_component(2), Some("proj".to_string()));
    assert_eq!(m.nth_path_component(3), None);
}

#[test]
fn path_validation_rejects_bad_components() {
    assert!(AbsoluteWgslPath::new(vec![]).is_none());
    assert!(AbsoluteWgslPath::new(vec!["a".to_string()]).is_none());
    assert!(AbsoluteWgslPath::new(vec![".".to_string(), "a.wgsl".to_string()]).is_none());
    assert!(AbsoluteWgslPath::new(vec!["..".to_string(), "a.wgsl".to_string()]).is_none());
    assert!(AbsoluteWgslPath::new(vec!["a/b".to_string(), "a.wgsl".to_string()]).is_none());
    assert!(AbsoluteWgslPath::new(vec![".wgsl".to_string()]).is_none());
    assert!(AbsoluteWgslPath::new(vec!["a.wgsl".to_string()]).is_some());
}

#[test]
fn snapshot_rejects_duplicate_files() {
    let mut t = FileTree::new();
    assert!(t.insert(wpath(&["proj", "a.wgsl"]), "one".to_string()));
    assert!(!t.insert(wpath(&["proj", "a.wgsl"]), "two".to_string()));
}

#[test]
fn decimal_and_spaces() {
    assert_eq!(decimal_string(0), "0");
    assert_eq!(decimal_string(7), "7");
    assert_eq!(decimal_string(1234), "1234");
    assert_eq!(space_string(0), "");
    assert_eq!(space_string(3), "   ");
}

#[test]
fn module_identity_is_canonical_path_equality() {
    let a = module(&["proj", "a.wgsl"]);
    let b = module(&["proj", "a.wgsl"]);
    let c = module(&["proj", "b.wgsl"]);
    assert!(a.matches(&b));
    assert!(!a.matches(&c));
}

#[test]
fn export_markers_are_blanked_and_collected() {
    let source = "@export struct Light { x: f32 }\nfn f() {}\n@export  struct  Camera{}\n";
    let (stripped, exports) = strip_exports(source);
    assert_eq!(
        stripped,
        "        struct Light { x: f32 }\nfn f() {}\n         struct  Camera{}\n"
    );
    let names: Vec<String> = exports
        .iter()
        .map(|e| match e {
            Export::Struct { struct_name } => struct_name.clone(),
        })
        .collect();
    assert_eq!(names, vec!["Light".to_string(), "Camera".to_string()]);
}

#[test]
fn export_without_struct_is_blanked_but_not_collected() {
    let (stripped, exports) = strip_exports("@export fn g() {}");
    assert_eq!(stripped, "        fn g() {}");
    assert!(exports.is_empty());
}

#[test]
fn processed_source_substitutes_aliases_right_aligned() {
    let tree = snapshot(&[
        (&["proj", "main.wgsl"], "#import a/util.wgsl\n#import b/util.wgsl\nfn main() {}\n"),
        (&["proj", "a", "util.wgsl"], ""),
        (&["proj", "b", "util.wgsl"], ""),
    ]);
    let root_module = module(&["proj", "main.wgsl"]);
    let root = dpath(&["proj"]);
    let order = ImportOrder::calculate(&tree, &root_module, &root).expect("resolution succeeds");
    let names = order.reduced_names();
    let processed = root_module.processed_source(&names, &tree, &root);
    // "a/util.wgsl" is 11 characters; "util_a" is right-aligned into them
    assert_eq!(processed, "#import      util_a\n#import      util_b\nfn main() {}\n");
}

#[test]
fn processed_source_keeps_unresolvable_requests() {
    let tree = snapshot(&[(&["proj", "main.wgsl"], "#import gone.wgsl\n")]);
    let root_module = module(&["proj", "main.wgsl"]);
    let root = dpath(&["proj"]);
    let names = wgsl_imports::names::NameAssignment { modules: vec![], names: vec![] };
    let processed = root_module.processed_source(&names, &tree, &root);
    assert_eq!(processed, "#import gone.wgsl\n");
}

#[test]
fn sourcecode_opens_entry_and_reports_missing() {
    let tree = snapshot(&[(&["proj", "shaders", "main.wgsl"], "@export struct V {}\n")]);
    let root = dpath(&["proj"]);
    let src = Sourcecode::new(&tree, root, "shaders/main.wgsl").expect("entry exists");
    assert_eq!(src.exports().len(), 1);
    let root2 = dpath(&["proj"]);
    match Sourcecode::new(&tree, root2, "shaders/other.wgsl") {
        Err(SourcecodeError::NotFound { requested, searched }) => {
            assert_eq!(requested, "shaders/other.wgsl");
            assert_eq!(searched, "/proj/shaders/other.wgsl");
        },
        Ok(_) => panic!("must not open a missing entry"),
    }
}

#[test]
fn relative_dependents_strip_the_project_root() {
    let tree = snapshot(&[(&["proj", "main.wgsl"], "")]);
    let root = dpath(&["proj"]);
    let mut src = Sourcecode::new(&tree, root, "main.wgsl").expect("entry exists");
    src.push_dependent(wpath(&["proj", "a", "util.wgsl"]));
    src.push_dependent(wpath(&["proj", "lib.wgsl"]));
    assert_eq!(
        src.relative_dependents(),
        vec!["a/util.wgsl".to_string(), "lib.wgsl".to_string()]
    );
}

#[test]
fn define_detection() {
    assert!(contains_define("x\n#define FOO 1\ny"));
    assert!(contains_define("#define"));
    assert!(!contains_define("#defin"));
    assert!(!contains_define("nothing here"));
}

#[test]
fn demangle_rewrites_mangled_identifiers() {
    // "lib" encodes as NRUWE in the unpadded base32 alphabet
    let mangled = "VertexX_naga_oil_mod_XNRUWEX";
    let (module_name, item) = decompose_mangled_name(mangled).expect("decodes");
    assert_eq!(module_name, "lib");
    assert_eq!(item, "Vertex");
    assert_eq!(demangle_mod_names(mangled, false), "lib::Vertex");
    // padded: the rendering keeps the width of the mangled original
    let padded = demangle_mod_names(mangled, true);
    assert_eq!(padded.len(), mangled.len());
    assert!(padded.ends_with("lib::Vertex"));
    assert!(padded.starts_with(' '));
    // unreadable text passes through unchanged
    assert_eq!(demangle_mod_names("plain_name", false), "plain_name");
    assert_eq!(demangle_mod_names("BadX_naga_oil_mod_X1X", true), "BadX_naga_oil_mod_X1X");
}

#[test]
fn errors_render_their_diagnostics() {
    let tree = snapshot(&[
        (&["proj", "a.wgsl"], "#import b.wgsl\n"),
        (&["proj", "b.wgsl"], "#import a.wgsl\n"),
    ]);
    let root = dpath(&["proj"]);
    let cycle = match ImportOrder::calculate(&tree, &module(&["proj", "a.wgsl"]), &root) {
        Err(e) => e,
        Ok(_) => panic!("the cycle must be rejected"),
    };
    assert_eq!(
        cycle.render(),
        "found import cycle:\n`/proj/a.wgsl` ->\n`/proj/b.wgsl` ->\n`/proj/a.wgsl`"
    );
    let importer = module(&["proj", "a.wgsl"]);
    let missing = match Module::resolve_module(
        &tree,
        &importer,
        &dpath(&["proj", "shaders"]),
        "gone.wgsl",
    ) {
        Err(e) => e,
        Ok(_) => panic!("must not resolve"),
    };
    assert_eq!(
        missing.render(),
        "could not resolve import `gone.wgsl` in file `/proj/a.wgsl`:\n\
         looked in location(s) , `/proj/gone.wgsl`, `/proj/shaders/gone.wgsl`"
    );
}
