use graph_model::core_model::{
    validate_and_map_graph, Bond, BondDirection, CreateGraphDTO, Graph, InMemoryGraph, Node,
};
use uuid::Uuid;

fn id(s: &str) -> u128 {
    Uuid::parse_str(s).unwrap().as_u128()
}

fn fresh() -> u128 {
    Uuid::new_v4().as_u128()
}

fn nil() -> u128 {
    Uuid::default().as_u128()
}

fn node(id: u128, labels: &[&str]) -> Node {
    Node { id, labels: labels.iter().map(|l| String::from(*l)).collect() }
}

fn bond(label: &str, src: u128, dst: u128) -> Bond {
    Bond { label: String::from(label), src, dst, id: fresh() }
}

fn five_ids() -> (u128, u128, u128, u128, u128) {
    (
        id("550e8400-e29b-41d4-a716-446655400001"),
        id("550e8400-e29b-41d4-a716-446655400002"),
        id("550e8400-e29b-41d4-a716-446655400003"),
        id("550e8400-e29b-41d4-a716-446655400004"),
        id("550e8400-e29b-41d4-a716-446655400005"),
    )
}

fn ids_of(nodes: &[&Node]) -> Vec<u128> {
    nodes.iter().map(|x| x.id).collect()
}

#[test]
fn validate_and_map_graph_passed() {
    let graphs: Vec<InMemoryGraph> = Vec::new();
    let dto = CreateGraphDTO { name: String::from("my_new_graph_name") };
    let result = validate_and_map_graph(dto, &graphs);

    assert_eq!(true, result.is_ok());
    assert_eq!("my_new_graph_name", result.unwrap().name);
}

#[test]
fn validate_and_map_graph_with_filled_passed() {
    let mut graphs: Vec<InMemoryGraph> = Vec::new();
    let dto = CreateGraphDTO { name: String::from("my_new_graph_name") };
    graphs.push(InMemoryGraph::new_graph(String::from("some")));
    graphs.push(InMemoryGraph::new_graph(String::from("some2")));

    let result = validate_and_map_graph(dto, &graphs);
    assert_eq!(true, result.is_ok());
    assert_eq!("my_new_graph_name", result.unwrap().name);
}

#[test]
fn validate_and_map_graph_success_failed() {
    let mut graphs: Vec<InMemoryGraph> = Vec::new();
    let dto = CreateGraphDTO { name: String::from("my_new_graph_name") };
    graphs.push(InMemoryGraph::new_graph(String::from("some")));
    graphs.push(InMemoryGraph::new_graph(String::from("my_new_graph_name")));

    let result = validate_and_map_graph(dto, &graphs);
    assert_eq!(true, result.is_err());
}

#[test]
fn add_node_to_empty_graph_passed() {
    let mut in_mem_graph = InMemoryGraph::new_graph("MyGraph".to_string());

    let n = Node { id: nil(), labels: vec![String::from("red")] };
    let adding_result = in_mem_graph.add_node(n);

    let node_uuid = in_mem_graph.nodes()[0].id;
    let btree_node_id = in_mem_graph.node_slot(node_uuid);

    assert_eq!(0, btree_node_id.unwrap());
    assert_eq!(true, adding_result.is_ok());
    assert_eq!(1, in_mem_graph.nodes().len());
}

#[test]
fn add_node_to_non_empty_graph_passed() {
    let mut in_mem_graph = InMemoryGraph::new_graph("MyGraph".to_string());

    in_mem_graph
        .create_node(Node {
            id: id("550e8400-e29b-41d4-a716-446655400001"),
            labels: vec![String::from("blue")],
        })
        .unwrap();
    in_mem_graph
        .create_node(Node {
            id: id("550e8400-e29b-41d4-a716-446655400003"),
            labels: vec![String::from("green")],
        })
        .unwrap();

    let addong_node = Node { id: nil(), labels: vec![String::from("red")] };
    let adding_result = in_mem_graph.add_node(addong_node);

    let added_nodes: Vec<u128> = in_mem_graph
        .nodes()
        .iter()
        .filter(|x| x.labels.contains(&String::from("red")))
        .map(|x| x.id)
        .collect();

    let index = added_nodes[0];

    assert_eq!(true, adding_result.is_ok());
    assert_eq!(3, in_mem_graph.nodes().len());
    assert_ne!(nil(), index);
    assert_eq!(1, added_nodes.len());
}

#[test]
fn add_node_to_non_empty_graph_not_zero_id_passed() {
    let mut in_mem_graph = InMemoryGraph::new_graph("MyGraph".to_string());

    let r1 = in_mem_graph.add_node(Node {
        id: id("550e8400-e29b-41d4-a716-446655400001"),
        labels: vec![String::from("blue")],
    });
    let r2 = in_mem_graph.add_node(Node {
        id: id("550e8400-e29b-41d4-a716-446655400003"),
        labels: vec![String::from("green")],
    });

    let checking_node_uuid = id("550e8400-e29b-41d4-a716-446655400004");
    let adding_node = Node { id: checking_node_uuid, labels: vec![String::from("red")] };
    let adding_result = in_mem_graph.add_node(adding_node);

    let added_nodes: Vec<u128> = in_mem_graph
        .nodes()
        .iter()
        .filter(|x| x.labels.contains(&String::from("red")))
        .map(|x| x.id)
        .collect();

    let index = added_nodes[0];
    let node_vector_index = in_mem_graph.node_slot(checking_node_uuid);

    assert_eq!(2, node_vector_index.unwrap());
    assert!(r1.is_ok());
    assert!(r2.is_ok());
    assert_eq!(true, adding_result.is_ok());
    assert_eq!(3, in_mem_graph.nodes().len());
    assert_ne!(nil(), index);
    assert_eq!(1, added_nodes.len());
}

#[test]
fn add_nodes_to_graph_get_correct_index_id_passed() {
    let mut in_mem_graph = InMemoryGraph::new_graph("MyGraph".to_string());

    let r1 = in_mem_graph.add_node(Node {
        id: id("550e8400-e29b-41d4-a716-446655400001"),
        labels: vec![String::from("blue")],
    });
    let r2 = in_mem_graph.add_node(Node {
        id: id("550e8400-e29b-41d4-a716-446655400003"),
        labels: vec![String::from("green")],
    });
    let r3 = in_mem_graph.add_node(Node {
        id: id("550e8400-e29b-41d4-a716-446655400300"),
        labels: vec![String::from("green")],
    });
    let r4 = in_mem_graph.add_node(Node {
        id: id("550e8400-e29b-41d4-a716-446655400002"),
        labels: vec![String::from("green")],
    });

    let node_vector_index = in_mem_graph.node_slot(id("550e8400-e29b-41d4-a716-446655400002"));

    assert_eq!(3, node_vector_index.unwrap());
    assert!(r1.is_ok());
    assert!(r2.is_ok());
    assert!(r3.is_ok());
    assert!(r4.is_ok());
}

#[test]
fn add_node_to_non_empty_graph_id_exists_failed() {
    let mut in_mem_graph = InMemoryGraph::new_graph("MyGraph".to_string());

    let r1 = in_mem_graph.add_node(Node {
        id: id("550e8400-e29b-41d4-a716-446655400001"),
        labels: vec![String::from("blue")],
    });
    let r2 = in_mem_graph.add_node(Node {
        id: id("550e8400-e29b-41d4-a716-446655400003"),
        labels: vec![String::from("green")],
    });

    let adding_node = Node {
        id: id("550e8400-e29b-41d4-a716-446655400001"),
        labels: vec![String::from("red")],
    };
    let adding_result = in_mem_graph.add_node(adding_node);

    let is_node_added =
        in_mem_graph.nodes().iter().any(|x| x.labels.contains(&String::from("red")));
    assert!(r1.is_ok());
    assert!(r2.is_ok());
    assert_eq!(true, adding_result.is_err());
    assert_eq!(false, is_node_added);
    assert_eq!(2, in_mem_graph.nodes().len());
}

#[test]
fn add_node_blank_label_failed() {
    let mut in_mem_graph = InMemoryGraph::new_graph("MyGraph".to_string());

    in_mem_graph
        .create_node(Node {
            id: id("550e8400-e29b-41d4-a716-446655400001"),
            labels: vec![String::from("blue")],
        })
        .unwrap();
    in_mem_graph
        .create_node(Node {
            id: id("550e8400-e29b-41d4-a716-446655400003"),
            labels: vec![String::from("green")],
        })
        .unwrap();

    let adding_node = Node {
        id: id("550e8400-e29b-41d4-a716-446655400002"),
        labels: vec![String::from("")],
    };
    let adding_result = in_mem_graph.add_node(adding_node);

    let is_node_added = in_mem_graph.nodes().iter().any(|x| x.labels.contains(&String::from("")));

    assert_eq!(true, adding_result.is_err());
    assert_eq!(false, is_node_added);
    assert_eq!(2, in_mem_graph.nodes().len());
}

#[test]
fn add_node_space_label_failed() {
    let mut in_mem_graph = InMemoryGraph::new_graph("MyGraph".to_string());

    in_mem_graph
        .create_node(Node {
            id: id("550e8400-e29b-41d4-a716-446655400001"),
            labels: vec![String::from("blue")],
        })
        .unwrap();
    in_mem_graph
        .create_node(Node {
            id: id("550e8400-e29b-41d4-a716-446655400003"),
            labels: vec![String::from("green")],
        })
        .unwrap();

    let adding_node = Node {
        id: id("550e8400-e29b-41d4-a716-446655400002"),
        labels: vec![String::from(" ")],
    };
    let adding_result = in_mem_graph.add_node(adding_node);

    let is_node_added = in_mem_graph.nodes().iter().any(|x| x.labels.contains(&String::from(" ")));

    assert_eq!(true, adding_result.is_err());
    assert_eq!(false, is_node_added);
    assert_eq!(2, in_mem_graph.nodes().len());
}

#[test]
fn add_bonds_to_graph_passed() {
    let mut in_mem_graph = InMemoryGraph::new_graph("MyGraph".to_string());
    let (uuid_1, uuid_2, uuid_3, uuid_4, uuid_5) = five_ids();

    in_mem_graph.create_node(node(uuid_1, &["blue"])).unwrap();
    in_mem_graph.create_node(node(uuid_2, &["green"])).unwrap();
    in_mem_graph.create_node(node(uuid_3, &["green"])).unwrap();
    in_mem_graph.create_node(node(uuid_4, &["green"])).unwrap();
    in_mem_graph.create_node(node(uuid_5, &["blue"])).unwrap();

    in_mem_graph.create_bond(bond("green-green", uuid_2, uuid_4)).unwrap();
    in_mem_graph.create_bond(bond("green-green", uuid_3, uuid_2)).unwrap();
    in_mem_graph.create_bond(bond("green-green", uuid_1, uuid_5)).unwrap();

    let adding_bond = bond("green-green", uuid_1, uuid_2);
    let adding_result = in_mem_graph.add_bond(adding_bond);

    assert_eq!(true, adding_result.is_ok());
    assert_eq!(4, in_mem_graph.bonds().len());
}

#[test]
fn add_bonds_to_graph_non_existing_node_failed() {
    let mut in_mem_graph = InMemoryGraph::new_graph("MyGraph".to_string());
    let (uuid_1, uuid_2, uuid_3, uuid_4, uuid_5) = five_ids();

    in_mem_graph.create_node(node(uuid_1, &["blue"])).unwrap();
    in_mem_graph.create_node(node(uuid_2, &["green"])).unwrap();
    in_mem_graph.create_node(node(uuid_3, &["green"])).unwrap();
    in_mem_graph.create_node(node(uuid_4, &["green"])).unwrap();
    in_mem_graph.create_node(node(uuid_5, &["blue"])).unwrap();

    let adding_bond = bond("green-green", id("550e8400-e29b-41d4-a716-446655400010"), uuid_2);
    let adding_result = in_mem_graph.add_bond(adding_bond);

    assert_eq!(true, adding_result.is_err());
    assert_eq!(0, in_mem_graph.bonds().len());
}

#[test]
fn add_bonds_to_graph_empty_label_failed() {
    let mut in_mem_graph = InMemoryGraph::new_graph("MyGraph".to_string());
    let (uuid_1, uuid_2, uuid_3, uuid_4, uuid_5) = five_ids();

    in_mem_graph.create_node(node(uuid_1, &["blue"])).unwrap();
    in_mem_graph.create_node(node(uuid_2, &["green"])).unwrap();
    in_mem_graph.create_node(node(uuid_3, &["green"])).unwrap();
    in_mem_graph.create_node(node(uuid_4, &["green"])).unwrap();
    in_mem_graph.create_node(node(uuid_5, &["blue"])).unwrap();

    let adding_bond = bond(" ", uuid_1, uuid_2);
    let adding_result = in_mem_graph.add_bond(adding_bond);

    assert_eq!(true, adding_result.is_err());
    assert_eq!(0, in_mem_graph.bonds().len());
}

fn five_node_graph(labels: [&str; 5]) -> (InMemoryGraph, (u128, u128, u128, u128, u128)) {
    let mut g = InMemoryGraph::new_graph("MyGraph".to_string());
    let ids = five_ids();
    let (uuid_1, uuid_2, uuid_3, uuid_4, uuid_5) = ids;
    g.add_node(node(uuid_1, &[labels[0]])).unwrap();
    g.add_node(node(uuid_2, &[labels[1]])).unwrap();
    g.add_node(node(uuid_3, &[labels[2]])).unwrap();
    g.add_node(node(uuid_4, &[labels[3]])).unwrap();
    g.add_node(node(uuid_5, &[labels[4]])).unwrap();
    (g, ids)
}

#[test]
fn get_simple_connected_nodes_passed() {
    let (mut in_mem_graph, (uuid_1, uuid_2, uuid_3, uuid_4, uuid_5)) =
        five_node_graph(["blue", "green", "green", "green", "blue"]);

    in_mem_graph.add_bond(bond("green-green", uuid_2, uuid_4)).unwrap();
    in_mem_graph.add_bond(bond("green-green", uuid_3, uuid_2)).unwrap();
    in_mem_graph.add_bond(bond("green-green", uuid_1, uuid_5)).unwrap();

    let connected_nodes_with_2 = in_mem_graph
        .get_connected_nodes(uuid_2, Vec::new(), Vec::new(), BondDirection::Both)
        .unwrap();
    let conn_nodes_ids_with_2 = ids_of(&connected_nodes_with_2);

    assert_eq!(3, connected_nodes_with_2.len());
    assert!(conn_nodes_ids_with_2.contains(&id("550e8400-e29b-41d4-a716-446655400002")));
    assert!(conn_nodes_ids_with_2.contains(&id("550e8400-e29b-41d4-a716-446655400003")));
    assert!(conn_nodes_ids_with_2.contains(&id("550e8400-e29b-41d4-a716-446655400004")));
}

#[test]
fn get_connected_nodes_with_labels_passed() {
    let (mut in_mem_graph, (uuid_1, uuid_2, uuid_3, uuid_4, uuid_5)) =
        five_node_graph(["blue", "green", "green", "grey", "blue"]);

    in_mem_graph.add_bond(bond("green-green", uuid_2, uuid_4)).unwrap();
    in_mem_graph.add_bond(bond("green-green", uuid_3, uuid_2)).unwrap();
    in_mem_graph.add_bond(bond("green-green", uuid_1, uuid_5)).unwrap();

    let connected_nodes_with_2 = in_mem_graph
        .get_connected_nodes(uuid_2, Vec::new(), vec!["green".to_string()], BondDirection::Both)
        .unwrap();
    let conn_nodes_ids_with_2 = ids_of(&connected_nodes_with_2);

    assert_eq!(2, connected_nodes_with_2.len());
    assert!(conn_nodes_ids_with_2.contains(&id("550e8400-e29b-41d4-a716-446655400002")));
    assert!(conn_nodes_ids_with_2.contains(&id("550e8400-e29b-41d4-a716-446655400003")));
    assert!(!conn_nodes_ids_with_2.contains(&id("550e8400-e29b-41d4-a716-446655400004")));
}

#[test]
fn get_connected_nodes_with_bond_label_passed() {
    let (mut in_mem_graph, (uuid_1, uuid_2, uuid_3, uuid_4, uuid_5)) =
        five_node_graph(["blue", "green", "green", "green", "blue"]);

    in_mem_graph.add_bond(bond("green-grey", uuid_2, uuid_4)).unwrap();
    in_mem_graph.add_bond(bond("green-green", uuid_3, uuid_2)).unwrap();
    in_mem_graph.add_bond(bond("green-green", uuid_1, uuid_5)).unwrap();

    let connected_nodes_with_2 = in_mem_graph
        .get_connected_nodes(
            uuid_2,
            vec!["green-green".to_string()],
            Vec::new(),
            BondDirection::Both,
        )
        .unwrap();
    let conn_nodes_ids_with_2 = ids_of(&connected_nodes_with_2);

    assert_eq!(2, connected_nodes_with_2.len());
    assert!(conn_nodes_ids_with_2.contains(&id("550e8400-e29b-41d4-a716-446655400002")));
    assert!(conn_nodes_ids_with_2.contains(&id("550e8400-e29b-41d4-a716-446655400003")));
    assert!(!conn_nodes_ids_with_2.contains(&id("550e8400-e29b-41d4-a716-446655400004")));
}

#[test]
fn get_connected_nodes_with_no_bonds_passed() {
    let (in_mem_graph, (_uuid_1, uuid_2, _uuid_3, _uuid_4, _uuid_5)) =
        five_node_graph(["blue", "green", "green", "green", "blue"]);

    let connected_nodes_with_2 = in_mem_graph
        .get_connected_nodes(
            uuid_2,
            vec!["green-green".to_string()],
            Vec::new(),
            BondDirection::Both,
        )
        .unwrap();
    let conn_nodes_ids_with_2 = ids_of(&connected_nodes_with_2);

    assert_eq!(1, connected_nodes_with_2.len());
    assert!(conn_nodes_ids_with_2.contains(&id("550e8400-e29b-41d4-a716-446655400002")));
}

#[test]
fn get_connected_nodes_with_no_bonds_failed() {
    let (in_mem_graph, _) = five_node_graph(["blue", "green", "green", "green", "blue"]);

    let connected_nodes_with_2 = in_mem_graph.get_connected_nodes(
        id("550e8400-e29b-41d4-a716-446655400006"),
        vec!["green-green".to_string()],
        Vec::new(),
        BondDirection::Both,
    );

    assert!(connected_nodes_with_2.is_err());
}

#[test]
fn get_connected_nodes_with_bond_label_multi_passed() {
    let (mut in_mem_graph, (uuid_1, uuid_2, uuid_3, uuid_4, uuid_5)) =
        five_node_graph(["blue1", "blue2", "blue3", "blue4", "blue5"]);

    in_mem_graph.add_bond(bond("green-grey", uuid_2, uuid_4)).unwrap();
    in_mem_graph.add_bond(bond("green-green", uuid_3, uuid_2)).unwrap();

    in_mem_graph.add_bond(bond("green-green", uuid_1, uuid_5)).unwrap();
    in_mem_graph.add_bond(bond("green-green", uuid_1, uuid_1)).unwrap();
    in_mem_graph.add_bond(bond("ruster", uuid_1, uuid_3)).unwrap();
    in_mem_graph.add_bond(bond("ruster", uuid_1, uuid_4)).unwrap();
    in_mem_graph.add_bond(bond("ruster", uuid_1, uuid_4)).unwrap();
    in_mem_graph.add_bond(bond("ruster", uuid_1, uuid_2)).unwrap();

    let connected_nodes_with_1 = in_mem_graph
        .get_connected_nodes(uuid_1, Vec::new(), Vec::new(), BondDirection::Both)
        .unwrap();
    let conn_nodes_ids_with_1 = ids_of(&connected_nodes_with_1);

    assert_eq!(8, connected_nodes_with_1.len());
    assert_eq!(8, conn_nodes_ids_with_1.len());
}

#[test]
fn get_connected_nodes_with_bond_label_multi_out_passed() {
    let (mut in_mem_graph, (uuid_1, uuid_2, uuid_3, uuid_4, uuid_5)) =
        five_node_graph(["blue", "green", "green", "green", "blue"]);

    in_mem_graph.add_bond(bond("green-green", uuid_1, uuid_5)).unwrap();
    in_mem_graph.add_bond(bond("ruster", uuid_1, uuid_3)).unwrap();
    in_mem_graph.add_bond(bond("ruster1", uuid_1, uuid_4)).unwrap();
    in_mem_graph.add_bond(bond("ruster2", uuid_1, uuid_2)).unwrap();

    let connected_nodes_with_1 = in_mem_graph
        .get_connected_nodes(uuid_1, Vec::new(), Vec::new(), BondDirection::Both)
        .unwrap();
    let _conn_nodes_ids_with_1 = ids_of(&connected_nodes_with_1);

    assert_eq!(5, connected_nodes_with_1.len());
    assert_eq!(4, in_mem_graph.bonds().len());
}

#[test]
fn get_connected_nodes_with_bond_label_multi_in_passed() {
    let (mut in_mem_graph, (uuid_1, uuid_2, uuid_3, uuid_4, uuid_5)) =
        five_node_graph(["blue", "green", "green", "green", "blue"]);

    in_mem_graph.add_bond(bond("green-green", uuid_2, uuid_1)).unwrap();
    in_mem_graph.add_bond(bond("ruster", uuid_3, uuid_1)).unwrap();
    in_mem_graph.add_bond(bond("ruster1", uuid_4, uuid_1)).unwrap();
    in_mem_graph.add_bond(bond("ruster2", uuid_5, uuid_1)).unwrap();

    let connected_nodes_with_1 = in_mem_graph
        .get_connected_nodes(uuid_1, Vec::new(), Vec::new(), BondDirection::Both)
        .unwrap();
    let _conn_nodes_ids_with_1 = ids_of(&connected_nodes_with_1);

    assert_eq!(5, connected_nodes_with_1.len());
    assert_eq!(4, in_mem_graph.bonds().len());
}

fn seven_ids() -> [u128; 7] {
    [
        id("550e8400-e29b-41d4-a716-446655400001"),
        id("550e8400-e29b-41d4-a716-446655400002"),
        id("550e8400-e29b-41d4-a716-446655400003"),
        id("550e8400-e29b-41d4-a716-446655400004"),
        id("550e8400-e29b-41d4-a716-446655400005"),
        id("550e8400-e29b-41d4-a716-446655400006"),
        id("550e8400-e29b-41d4-a716-446655400007"),
    ]
}

#[test]
fn get_nodes_by_id_list_passed() {
    let (in_mem_graph, _) = five_node_graph(["blue", "green", "green", "green", "blue"]);
    let u = seven_ids();

    let id_list = vec![u[0], u[1], u[2], u[5], u[6]];
    let nodes_by_id_list = in_mem_graph.get_nodes_by_id_list(id_list);

    assert_eq!(3, nodes_by_id_list.unwrap().len());
}

#[test]
fn get_nodes_by_id_list_with_dups_passed() {
    let (in_mem_graph, _) = five_node_graph(["blue", "green", "green", "green", "blue"]);
    let u = seven_ids();

    let id_list = vec![u[0], u[0], u[1], u[1], u[2], u[5], u[6]];
    let nodes_by_id_list = in_mem_graph.get_nodes_by_id_list(id_list);

    assert_eq!(3, nodes_by_id_list.unwrap().len());
}

#[test]
fn get_nodes_by_id_list_all_node_exist_passed() {
    let (in_mem_graph, _) = five_node_graph(["blue", "green", "green", "green", "blue"]);
    let u = seven_ids();

    let id_list = vec![u[5], u[6]];
    let nodes_by_id_list = in_mem_graph.get_nodes_by_id_list(id_list);

    assert_eq!(0, nodes_by_id_list.unwrap().len());
}

#[test]
fn get_nodes_by_label_list_passed() {
    let mut in_mem_graph = InMemoryGraph::new_graph("MyGraph".to_string());
    let (uuid_1, uuid_2, uuid_3, uuid_4, uuid_5) = five_ids();

    in_mem_graph.add_node(node(uuid_1, &["one", "blue"])).unwrap();
    in_mem_graph.add_node(node(uuid_2, &["two", "green"])).unwrap();
    in_mem_graph.add_node(node(uuid_3, &["three", "yellow"])).unwrap();
    in_mem_graph.add_node(node(uuid_4, &["four", "brown"])).unwrap();
    in_mem_graph.add_node(node(uuid_5, &["five", "white"])).unwrap();

    let label_list = vec![
        String::from("one"),
        String::from("yellow"),
        String::from("five"),
        String::from("white"),
    ];
    let nodes_by_id_list = in_mem_graph.get_nodes_by_label_list(label_list);

    assert_eq!(3, nodes_by_id_list.unwrap().len());
}
