use server_core::graph::{Graph, GraphError};

#[test]
fn test_empty_graph() {
    let graph: Graph<&str> = Graph::new();
    assert_eq!(0, graph.num_vertices());
    assert_eq!(0, graph.num_edges());
    assert_eq!(false, graph.has_cycle())
}

#[test]
fn test_basic_graph() -> Result<(), GraphError> {
    let mut graph = Graph::new();

    let hello = graph.add_vertex("Hello");
    assert_eq!(1, graph.num_vertices());
    assert!(graph.has_vertex(&hello));
    assert_eq!("Hello", graph.get_vertex(&hello).unwrap().value);

    let world = graph.add_vertex("World");
    graph.add_edge(&hello, world)?;
    assert_eq!(1, graph.num_edges());
    assert!(graph.has_edge(&hello, &world));
    graph.delete_edge(&hello, &world)?;
    assert_eq!(false, graph.has_edge(&hello, &world));
    assert_eq!(0, graph.num_edges());

    let delete = graph.add_vertex("nope");
    graph.add_edge(&world, delete)?;
    let deleted_value = graph.delete_vertex(&delete);
    assert_eq!("nope", deleted_value?);
    assert_eq!(2, graph.num_vertices());
    assert_eq!(false, graph.has_vertex(&delete));
    Ok(())
}

#[test]
fn test_has_cycle() -> Result<(), GraphError> {
    let mut graph = Graph::new();
    assert_eq!(false, graph.has_cycle());

    let hello = graph.add_vertex("Hello");
    assert_eq!(false, graph.has_cycle());

    let world = graph.add_vertex("World");
    graph.add_edge(&hello, world)?;
    assert_eq!(false, graph.has_cycle());

    graph.add_edge(&world, hello)?;
    assert_eq!(true, graph.has_cycle());

    graph.delete_edge(&world, &hello)?;
    assert_eq!(false, graph.has_cycle());

    let something = graph.add_vertex("Something");
    let something_else = graph.add_vertex("Else");

    graph.add_edge(&world, something)?;
    graph.add_edge(&something, something_else)?;

    graph.add_edge(&something_else, world)?;
    assert_eq!(true, graph.has_cycle());
    Ok(())
}

#[test]
fn test_add_edge_errors() {
    let mut graph = Graph::new();
    let a = graph.add_vertex(1u64);
    assert_eq!(Err(GraphError::InvalidEdge(a, a)), graph.add_edge(&a, a));
    assert_eq!(Err(GraphError::VertexNotFound(99)), graph.add_edge(&a, 99));
    assert_eq!(Err(GraphError::VertexNotFound(98)), graph.add_edge(&98, a));
    let b = graph.add_vertex(2u64);
    assert_eq!(Ok(true), graph.add_edge(&a, b));
    assert_eq!(Ok(false), graph.add_edge(&a, b));
}

#[test]
fn test_delete_edge_errors() {
    let mut graph = Graph::new();
    let a = graph.add_vertex(1u64);
    let b = graph.add_vertex(2u64);
    assert_eq!(Err(GraphError::InvalidEdge(a, a)), graph.delete_edge(&a, &a));
    assert_eq!(Err(GraphError::VertexNotFound(99)), graph.delete_edge(&a, &99));
    assert_eq!(Ok(false), graph.delete_edge(&a, &b));
    graph.add_edge(&a, b).unwrap();
    assert_eq!(Ok(true), graph.delete_edge(&a, &b));
    assert_eq!(0, graph.num_edges());
}

#[test]
fn test_delete_vertex_missing() {
    let mut graph: Graph<u64> = Graph::new();
    assert_eq!(Err(GraphError::VertexNotFound(7)), graph.delete_vertex(&7));
}

#[test]
fn test_label_recycling() {
    let mut graph = Graph::new();
    let a = graph.add_vertex("a");
    let b = graph.add_vertex("b");
    let c = graph.add_vertex("c");
    assert_ne!(a, b);
    assert_ne!(b, c);
    assert_ne!(a, c);
    graph.delete_vertex(&b).unwrap();
    let d = graph.add_vertex("d");
    assert!(graph.has_vertex(&d));
    assert_eq!(3, graph.num_vertices());
}

#[test]
fn test_delete_vertex_removes_incoming_edges() {
    let mut graph = Graph::new();
    let a = graph.add_vertex("a");
    let b = graph.add_vertex("b");
    let c = graph.add_vertex("c");
    graph.add_edge(&a, b).unwrap();
    graph.add_edge(&c, b).unwrap();
    graph.add_edge(&a, c).unwrap();
    assert_eq!(3, graph.num_edges());
    graph.delete_vertex(&b).unwrap();
    assert_eq!(1, graph.num_edges());
    assert!(graph.has_edge(&a, &c));
    assert!(!graph.has_edge(&a, &b));
}
