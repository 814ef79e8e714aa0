use lddtopo::dep_graph::DependencyGraph;
use lddtopo::plan::{
    get_topologically_sorted_result, library_map, libs_in_order, CycleError, Edge, Lib,
};
use lddtopo::tree::{DependencyTree, Library, LibraryMap};

type RetType = Result<(), CycleError>;

fn lib(name: &str, needed: &[&str]) -> Library {
    Library {
        name: name.to_string(),
        path: Some(String::new()),
        needed: needed.iter().map(|n| n.to_string()).collect(),
    }
}

fn lib_at(name: &str, path: Option<&str>) -> Library {
    Library { name: name.to_string(), path: path.map(|p| p.to_string()), needed: vec![] }
}

fn found(name: &str, path: Option<&str>) -> Lib {
    Lib { name: name.to_string(), path: path.map(|p| p.to_string()) }
}

fn edge(src: &str, dst: &str) -> Edge {
    Edge { src: src.to_string(), dst: dst.to_string() }
}

fn diamond() -> DependencyTree {
    let mut libraries = LibraryMap::new();
    libraries.insert(lib("B", &["D"]));
    libraries.insert(lib("C", &["D"]));
    libraries.insert(lib("D", &["E"]));
    libraries.insert(lib("E", &["F"]));
    libraries.insert(lib("F", &[]));
    DependencyTree {
        needed: vec!["B".to_string(), "C".to_string(), "F".to_string()],
        libraries,
    }
}

#[test]
fn get_topologically_sorted_result_when_input_is_empty_dag_should_work() -> RetType {
    let dt = DependencyTree { needed: vec![], libraries: LibraryMap::new() };
    let main_lib = "A";
    let main_lib_path = "/tmp/A";
    let toposorted = get_topologically_sorted_result(main_lib, main_lib_path, &dt)?;
    assert_eq!(0, toposorted.vertices.len());
    assert_eq!(0, toposorted.edges.len());
    assert_eq!(0, toposorted.topo_sorted_libs.len());
    Ok(())
}

#[test]
fn get_topologically_sorted_result_when_input_is_dag_with_two_vertices_should_work() -> RetType {
    let dt = DependencyTree { needed: vec!["B".to_string()], libraries: LibraryMap::new() };
    let main_lib = "A";
    let main_lib_path = "/tmp/A";

    let toposorted = get_topologically_sorted_result(main_lib, main_lib_path, &dt)?;
    assert_eq!(2, toposorted.vertices.len());
    assert_eq!(1, toposorted.edges.len());
    assert_eq!(2, toposorted.topo_sorted_libs.len());

    assert_eq!("B", toposorted.topo_sorted_libs[0].name);
    assert_eq!("A", toposorted.topo_sorted_libs[1].name);
    Ok(())
}

#[test]
fn get_topologically_sorted_result_when_input_is_small_dag_should_work() -> RetType {
    let mut libraries = LibraryMap::new();
    libraries.insert(Library {
        name: "B".to_string(),
        path: Some(String::new()),
        needed: vec!["D".to_string()],
    });
    libraries.insert(Library {
        name: "C".to_string(),
        path: Some(String::new()),
        needed: vec!["D".to_string()],
    });
    libraries.insert(Library {
        name: "D".to_string(),
        path: Some(String::new()),
        needed: vec!["E".to_string()],
    });
    libraries.insert(Library {
        name: "E".to_string(),
        path: Some(String::new()),
        needed: vec!["F".to_string()],
    });
    libraries.insert(Library { name: "F".to_string(), path: Some(String::new()), needed: vec![] });
    let dt = DependencyTree {
        needed: vec!["B".to_string(), "C".to_string(), "F".to_string()],
        libraries: libraries,
    };
    let main_lib = "A";
    let main_lib_path = "/tmp/A";
    let toposorted = get_topologically_sorted_result(main_lib, main_lib_path, &dt)?;
    assert_eq!(6, toposorted.vertices.len());
    assert_eq!(7, toposorted.edges.len());
    assert_eq!(6, toposorted.topo_sorted_libs.len());

    assert_eq!("F", toposorted.topo_sorted_libs[0].name);
    assert_eq!("E", toposorted.topo_sorted_libs[1].name);
    assert_eq!("D", toposorted.topo_sorted_libs[2].name);
    assert_eq!("C", toposorted.topo_sorted_libs[3].name);
    assert_eq!("B", toposorted.topo_sorted_libs[4].name);
    assert_eq!("A", toposorted.topo_sorted_libs[5].name);
    Ok(())
}

#[test]
fn get_topologically_sorted_result_when_input_is_not_dag_should_fail() {
    let mut libraries = LibraryMap::new();
    libraries.insert(Library {
        name: "A".to_string(),
        path: Some(String::new()),
        needed: vec!["B".to_string()],
    });
    libraries.insert(Library {
        name: "B".to_string(),
        path: Some(String::new()),
        needed: vec!["A".to_string()],
    });

    let dt = DependencyTree { needed: vec!["B".to_string()], libraries: libraries };
    let main_lib = "A";
    let main_lib_path = "/tmp/A";

    match get_topologically_sorted_result(main_lib, main_lib_path, &dt) {
        Ok(x) => {
            panic!("Should not find any topo sort, but found {:?}", x)
        }
        Err(_) => {}
    }
}

#[test]
fn empty_tree_gives_an_empty_plan() {
    let dt = DependencyTree { needed: vec![], libraries: LibraryMap::new() };
    let plan = get_topologically_sorted_result("A", "/tmp/A", &dt).unwrap();
    assert_eq!(Vec::<String>::new(), plan.vertices);
    assert_eq!(Vec::<Edge>::new(), plan.edges);
    assert_eq!(Vec::<Lib>::new(), plan.library_map);
    assert_eq!(Vec::<Lib>::new(), plan.topo_sorted_libs);
}

#[test]
fn two_nodes_give_one_edge_and_the_need_first() {
    let dt = DependencyTree { needed: vec!["B".to_string()], libraries: LibraryMap::new() };
    let plan = get_topologically_sorted_result("A", "/tmp/A", &dt).unwrap();
    assert_eq!(vec!["A".to_string(), "B".to_string()], plan.vertices);
    assert_eq!(vec![edge("B", "A")], plan.edges);
    assert_eq!(Vec::<Lib>::new(), plan.library_map);
    assert_eq!(
        vec![
            Lib { name: "B".to_string(), path: None },
            Lib { name: "A".to_string(), path: Some("/tmp/A".to_string()) },
        ],
        plan.topo_sorted_libs
    );
}

#[test]
fn diamond_has_sorted_vertices_and_edges() {
    let plan = get_topologically_sorted_result("A", "/tmp/A", &diamond()).unwrap();
    let names: Vec<&str> = plan.vertices.iter().map(|v| v.as_str()).collect();
    assert_eq!(vec!["A", "B", "C", "D", "E", "F"], names);
    assert_eq!(
        vec![
            edge("B", "A"),
            edge("C", "A"),
            edge("D", "B"),
            edge("D", "C"),
            edge("E", "D"),
            edge("F", "A"),
            edge("F", "E"),
        ],
        plan.edges
    );
}

#[test]
fn diamond_load_order_permutes_the_vertices_and_respects_every_edge() {
    let plan = get_topologically_sorted_result("A", "/tmp/A", &diamond()).unwrap();
    let order: Vec<&str> = plan.topo_sorted_libs.iter().map(|l| l.name.as_str()).collect();
    let mut sorted = order.clone();
    sorted.sort();
    let vertices: Vec<&str> = plan.vertices.iter().map(|v| v.as_str()).collect();
    assert_eq!(vertices, sorted);
    for e in &plan.edges {
        let src = order.iter().position(|n| *n == e.src).unwrap();
        let dst = order.iter().position(|n| *n == e.dst).unwrap();
        assert!(src < dst, "{} must come before {}", e.src, e.dst);
    }
}

#[test]
fn diamond_does_not_depend_on_the_order_of_insertion() {
    let mut libraries = LibraryMap::new();
    libraries.insert(lib("F", &[]));
    libraries.insert(lib("E", &["F"]));
    libraries.insert(lib("D", &["E"]));
    libraries.insert(lib("C", &["D"]));
    libraries.insert(lib("B", &["D"]));
    let dt = DependencyTree {
        needed: vec!["B".to_string(), "C".to_string(), "F".to_string()],
        libraries,
    };
    let a = get_topologically_sorted_result("A", "/tmp/A", &dt).unwrap();
    let b = get_topologically_sorted_result("A", "/tmp/A", &diamond()).unwrap();
    assert_eq!(a.vertices, b.vertices);
    assert_eq!(a.edges, b.edges);
    assert_eq!(a.library_map, b.library_map);
}

#[test]
fn paths_come_from_the_tree_and_the_main_path_from_the_caller() {
    let mut libraries = LibraryMap::new();
    libraries.insert(Library {
        name: "libb.so".to_string(),
        path: Some("/usr/lib/libb.so".to_string()),
        needed: vec!["libc.so".to_string()],
    });
    libraries.insert(Library { name: "libc.so".to_string(), path: None, needed: vec![] });
    let dt = DependencyTree {
        needed: vec!["libb.so".to_string(), "libx.so".to_string()],
        libraries,
    };
    let plan = get_topologically_sorted_result("app", "/opt/app", &dt).unwrap();
    assert_eq!(
        vec![
            Lib { name: "libb.so".to_string(), path: Some("/usr/lib/libb.so".to_string()) },
            Lib { name: "libc.so".to_string(), path: None },
        ],
        plan.library_map
    );
    for l in &plan.topo_sorted_libs {
        let expected = match l.name.as_str() {
            "app" => Some("/opt/app".to_string()),
            "libb.so" => Some("/usr/lib/libb.so".to_string()),
            "libc.so" => None,
            "libx.so" => None,
            other => panic!("unexpected library {}", other),
        };
        assert_eq!(expected, l.path);
    }
    assert_eq!(4, plan.topo_sorted_libs.len());
}

#[test]
fn main_path_wins_over_a_library_of_the_same_name() {
    let mut libraries = LibraryMap::new();
    libraries.insert(Library {
        name: "A".to_string(),
        path: Some("/elsewhere/A".to_string()),
        needed: vec![],
    });
    let dt = DependencyTree { needed: vec![], libraries };
    let plan = get_topologically_sorted_result("A", "/tmp/A", &dt).unwrap();
    assert_eq!(vec![found("A", Some("/tmp/A"))], plan.topo_sorted_libs);
    assert_eq!(vec![found("A", Some("/elsewhere/A"))], plan.library_map);
}

#[test]
fn direct_cycle_reports_a_library_on_the_cycle() {
    let mut libraries = LibraryMap::new();
    libraries.insert(lib("A", &["B"]));
    libraries.insert(lib("B", &["A"]));
    let dt = DependencyTree { needed: vec!["B".to_string()], libraries };
    let err = get_topologically_sorted_result("A", "/tmp/A", &dt).unwrap_err();
    assert!(err.name == "A" || err.name == "B", "{} is on no cycle", err.name);
}

#[test]
fn cycle_away_from_the_main_library_is_found() {
    let mut libraries = LibraryMap::new();
    libraries.insert(lib("B", &["C"]));
    libraries.insert(lib("C", &["D"]));
    libraries.insert(lib("D", &["B"]));
    libraries.insert(lib("E", &[]));
    let dt = DependencyTree { needed: vec!["E".to_string(), "B".to_string()], libraries };
    let err = get_topologically_sorted_result("A", "/tmp/A", &dt).unwrap_err();
    assert!(["B", "C", "D"].contains(&err.name.as_str()), "{} is on no cycle", err.name);
}

#[test]
fn library_that_needs_itself_is_a_cycle() {
    let mut libraries = LibraryMap::new();
    libraries.insert(lib("B", &["B"]));
    let dt = DependencyTree { needed: vec!["B".to_string()], libraries };
    let err = get_topologically_sorted_result("A", "/tmp/A", &dt).unwrap_err();
    assert_eq!(CycleError { name: "B".to_string() }, err);
}

#[test]
fn dangling_need_adds_neither_edge_nor_node() {
    let mut libraries = LibraryMap::new();
    libraries.insert(lib("B", &["missing.so", "C"]));
    libraries.insert(lib("C", &["also-missing.so"]));
    let dt = DependencyTree { needed: vec!["B".to_string()], libraries };
    let plan = get_topologically_sorted_result("A", "/tmp/A", &dt).unwrap();
    assert_eq!(vec!["A".to_string(), "B".to_string(), "C".to_string()], plan.vertices);
    assert_eq!(vec![edge("B", "A"), edge("C", "B")], plan.edges);
    let order: Vec<&str> = plan.topo_sorted_libs.iter().map(|l| l.name.as_str()).collect();
    assert_eq!(vec!["C", "B", "A"], order);
}

#[test]
fn repeated_needs_give_one_edge() {
    let mut libraries = LibraryMap::new();
    libraries.insert(lib("B", &["C", "C"]));
    libraries.insert(lib("C", &[]));
    let dt = DependencyTree { needed: vec!["B".to_string(), "B".to_string()], libraries };
    let plan = get_topologically_sorted_result("A", "/tmp/A", &dt).unwrap();
    assert_eq!(vec![edge("B", "A"), edge("C", "B")], plan.edges);
    assert_eq!(3, plan.topo_sorted_libs.len());
}

#[test]
fn main_library_without_needs_is_no_vertex() {
    let mut libraries = LibraryMap::new();
    libraries.insert(lib("B", &[]));
    let dt = DependencyTree { needed: vec![], libraries };
    let plan = get_topologically_sorted_result("A", "/tmp/A", &dt).unwrap();
    assert_eq!(vec!["B".to_string()], plan.vertices);
    assert_eq!(Vec::<Edge>::new(), plan.edges);
}

#[test]
fn vertices_are_in_byte_order() {
    let dt = DependencyTree {
        needed: vec![
            "libz".to_string(),
            "libé".to_string(),
            "Lib".to_string(),
            "lib".to_string(),
            "lib10".to_string(),
            "lib2".to_string(),
        ],
        libraries: LibraryMap::new(),
    };
    let plan = get_topologically_sorted_result("main", "/m", &dt).unwrap();
    let names: Vec<&str> = plan.vertices.iter().map(|v| v.as_str()).collect();
    assert_eq!(vec!["Lib", "lib", "lib10", "lib2", "libz", "libé", "main"], names);
    let mut expected = plan.edges.clone();
    expected.sort_by(|a, b| (&a.src, &a.dst).cmp(&(&b.src, &b.dst)));
    assert_eq!(expected, plan.edges);
}

#[test]
fn library_map_lists_each_library_once_in_name_order() {
    let mut libraries = LibraryMap::new();
    libraries.insert(lib_at("z", Some("/z")));
    libraries.insert(lib_at("a", Some("/old")));
    libraries.insert(lib_at("m", None));
    libraries.insert(lib_at("a", Some("/a")));
    assert_eq!(3, libraries.len());
    assert_eq!(
        vec![found("a", Some("/a")), found("m", None), found("z", Some("/z"))],
        library_map(&libraries)
    );
}

#[test]
fn library_map_of_the_tree_finds_by_name() {
    let mut libraries = LibraryMap::new();
    assert!(libraries.is_empty());
    libraries.insert(lib("B", &["D"]));
    libraries.insert(lib("C", &[]));
    assert!(!libraries.is_empty());
    assert!(libraries.contains_key("B"));
    assert!(!libraries.contains_key("D"));
    assert_eq!(vec!["D".to_string()], libraries.get("B").unwrap().needed);
    assert!(libraries.get("D").is_none());
    libraries.insert(lib("B", &[]));
    assert_eq!(2, libraries.len());
    assert!(libraries.get("B").unwrap().needed.is_empty());
}

#[test]
fn graph_steps_can_be_taken_one_by_one() {
    let mut graph = DependencyGraph::new();
    let a = graph.intern("A");
    assert!(graph.vertices().is_empty());
    assert_eq!(a, graph.add_library("A"));
    let b = graph.add_library("B");
    assert_eq!((0, 1), (a, b));
    graph.add_need("C", a);
    graph.add_need("C", b);
    graph.add_need("B", a);
    assert_eq!(vec!["A".to_string(), "B".to_string(), "C".to_string()], graph.vertices());
    assert_eq!(vec![edge("B", "A"), edge("C", "A"), edge("C", "B")], graph.edges());
    assert_eq!(Ok(vec!["C".to_string(), "B".to_string(), "A".to_string()]), graph.toposort());
    graph.add_need("A", b);
    assert!(graph.toposort().is_err());
}

#[test]
fn built_graph_has_the_nodes_and_edges_of_the_tree() {
    let graph = DependencyGraph::build("A", &diamond());
    assert_eq!(6, graph.vertices().len());
    assert_eq!(7, graph.edges().len());
    let order = graph.toposort().unwrap();
    assert_eq!(vec!["F", "E", "D", "C", "B", "A"], order);
}

#[test]
fn names_of_a_small_tree_fit_the_identifiers() {
    assert!(diamond().names_fit("A"));
    let dt = DependencyTree { needed: vec![], libraries: LibraryMap::new() };
    assert!(dt.names_fit("A"));
}

#[test]
fn libs_in_order_gives_each_name_its_path() {
    let mut libraries = LibraryMap::new();
    libraries.insert(lib_at("b", Some("/lib/b")));
    libraries.insert(lib_at("c", None));
    libraries.insert(lib_at("m", Some("/lib/m")));
    let dt = DependencyTree { needed: vec![], libraries };
    let order: Vec<String> = ["c", "x", "m", "b", "m"].iter().map(|n| n.to_string()).collect();
    let libs = libs_in_order(&order, "m", "/main/m", &dt);
    assert_eq!(
        vec![
            found("c", None),
            found("x", None),
            found("m", Some("/main/m")),
            found("b", Some("/lib/b")),
            found("m", Some("/main/m")),
        ],
        libs
    );
    assert!(libs_in_order(&Vec::new(), "m", "/main/m", &dt).is_empty());
}

#[test]
fn main_library_comes_last_when_every_library_is_needed_by_it() {
    let plan = get_topologically_sorted_result("A", "/tmp/A", &diamond()).unwrap();
    assert_eq!(found("A", Some("/tmp/A")), plan.topo_sorted_libs[plan.topo_sorted_libs.len() - 1]);
}

#[test]
fn library_that_needs_the_main_library_comes_after_it() {
    let mut libraries = LibraryMap::new();
    libraries.insert(lib("A", &[]));
    libraries.insert(lib("X", &["A"]));
    let dt = DependencyTree { needed: vec!["B".to_string()], libraries };
    let plan = get_topologically_sorted_result("A", "/tmp/A", &dt).unwrap();
    let order: Vec<&str> = plan.topo_sorted_libs.iter().map(|l| l.name.as_str()).collect();
    assert_eq!(vec!["B", "A", "X"], order);
}
