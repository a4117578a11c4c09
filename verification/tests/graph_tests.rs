use audio_graph::{DefaultPortType, Error, Graph};

#[test]
fn basic_ops() {
    let mut graph = Graph::default();
    let a = graph.node("A");
    let b = graph.node("B");

    let a_in = graph
        .port(a, DefaultPortType::Event, "events")
        .expect("port was not created");
    let a_out = graph
        .port(a, DefaultPortType::Audio, "output")
        .expect("port was not created");
    let b_in = graph
        .port(b, DefaultPortType::Audio, "input")
        .expect("port was not created");

    graph.connect(a_out, b_in).expect("could not connect");
    graph
        .connect(a_in, b_in)
        .expect_err("connected mistyped ports");
    graph.delete_port(a_in).expect("could not delete port");
    graph
        .disconnect(a_out, b_in)
        .expect("could not disconnect ports");
    graph.delete_node(a).expect("could not delete");
    graph
        .connect(a_out, b_in)
        .expect_err("connected node that doesn't exist");
}

#[test]
fn simple_graph() {
    let mut graph = Graph::default();
    let (a, b, c, d) = (
        graph.node("A"),
        graph.node("B"),
        graph.node("C"),
        graph.node("D"),
    );
    let (a_out, b_out, c_out) = (
        graph
            .port(a, DefaultPortType::Audio, "output")
            .expect("could not create output port"),
        graph
            .port(b, DefaultPortType::Audio, "output")
            .expect("could not create output port"),
        graph
            .port(c, DefaultPortType::Audio, "output")
            .expect("could not create output port"),
    );

    let (a_in, b_in, c_in, d_in, d_in_2) = (
        graph
            .port(a, DefaultPortType::Audio, "input")
            .expect("could not create input"),
        graph
            .port(b, DefaultPortType::Audio, "input")
            .expect("could not create input"),
        graph
            .port(c, DefaultPortType::Audio, "input")
            .expect("could not create input"),
        graph
            .port(d, DefaultPortType::Audio, "d_input_1")
            .expect("could not create input"),
        graph
            .port(d, DefaultPortType::Audio, "d_input_2")
            .expect("could not create input"),
    );
    let _ = a_in;
    graph.set_delay(b, 2).expect("could not update delay of b");
    graph.set_delay(c, 5).expect("could not update delay of c");
    graph.connect(a_out, b_in).expect("could not connect");
    graph.connect(a_out, c_in).expect("could not connect");
    graph.connect(b_out, d_in).expect("could not connect");
    graph.connect(c_out, d_in).expect("could not connect");
    graph.connect(b_out, d_in_2).expect("could not connect");

    graph
        .connect(b_out, a_in)
        .expect_err("Cycles should not be allowed");

    let mut last_node = None;
    for entry in graph.compile() {
        println!("process {:?}:", entry.node);
        for (port, buffers) in entry.inputs.iter() {
            println!("    {} => ", port);

            if *port == "d_input_1" {
                for (b, delay_comp) in buffers {
                    println!("        index: {}", b.index);
                    println!("        delay_comp: {}", delay_comp);
                }

                // One of the buffers should have a delay_comp of 0, and one
                // should have a delay_comp of 3
                assert!(
                    (buffers[0].1 == 0 && buffers[1].1 == 3)
                        || (buffers[0].1 == 3 && buffers[1].1 == 0)
                )
            } else {
                for (b, delay_comp) in buffers {
                    println!("        index: {}", b.index);
                    println!("        delay_comp: {}", delay_comp);

                    if *port == "d_input_2" {
                        assert_eq!(*delay_comp, 3);
                    } else {
                        assert_eq!(*delay_comp, 0);
                    }
                }
            }
        }
        for (port, buffer) in entry.outputs.iter() {
            println!("    {:?} => {}", port, buffer.index);
        }
        last_node = Some(entry.node.clone());
    }
    assert!(matches!(last_node, Some("D")));
}

#[test]
fn cycle_rejected() {
    let mut graph = Graph::default();
    let a = graph.node("A");
    let b = graph.node("B");
    let a_in = graph.port(a, DefaultPortType::Audio, "a_in").unwrap();
    let a_out = graph.port(a, DefaultPortType::Audio, "a_out").unwrap();
    let b_in = graph.port(b, DefaultPortType::Audio, "b_in").unwrap();
    let b_out = graph.port(b, DefaultPortType::Audio, "b_out").unwrap();
    assert!(graph.connect(a_out, b_in).is_ok());
    assert!(matches!(graph.connect(b_out, a_in), Err(Error::Cycle)));
}

#[test]
fn self_connection_is_a_cycle() {
    let mut graph = Graph::default();
    let a = graph.node("A");
    let a_in = graph.port(a, DefaultPortType::Audio, "in").unwrap();
    let a_out = graph.port(a, DefaultPortType::Audio, "out").unwrap();
    // both ports belong to one node: the walk sees the node at once
    assert!(matches!(graph.connect(a_out, a_in), Err(Error::Cycle)));
    assert!(matches!(graph.connect(a_out, a_out), Err(Error::Cycle)));
}

#[test]
fn error_variants() {
    let mut graph: Graph<&str, &str, DefaultPortType> = Graph::default();
    let a = graph.node("A");
    let a_out = graph.port(a, DefaultPortType::Audio, "out").unwrap();
    let ev = graph.port(a, DefaultPortType::Event, "ev").unwrap();
    let b = graph.node("B");
    let b_in = graph.port(b, DefaultPortType::Audio, "in").unwrap();

    assert!(matches!(
        graph.connect(ev, b_in),
        Err(Error::InvalidPortType)
    ));
    assert!(matches!(
        graph.disconnect(a_out, b_in),
        Err(Error::ConnectionDoesNotExist)
    ));
    graph.delete_node(b).unwrap();
    assert!(matches!(
        graph.connect(a_out, b_in),
        Err(Error::PortDoesNotExist)
    ));
    assert!(matches!(
        graph.set_delay(b, 3),
        Err(Error::NodeDoesNotExist)
    ));
    assert!(matches!(
        graph.port(b, DefaultPortType::Audio, "x"),
        Err(Error::NodeDoesNotExist)
    ));
    assert!(matches!(
        graph.delete_port(b_in),
        Err(Error::PortDoesNotExist)
    ));
    assert!(matches!(graph.node_ident(b), Err(Error::NodeDoesNotExist)));
    assert!(matches!(
        graph.port_ident(b_in),
        Err(Error::PortDoesNotExist)
    ));
}

#[test]
fn error_messages() {
    assert_eq!(
        Error::NodeDoesNotExist.message(),
        "Audio graph node does not exist"
    );
    assert_eq!(
        Error::PortDoesNotExist.message(),
        "Audio graph port does not exist"
    );
    assert_eq!(Error::Cycle.message(), "Audio graph cycle detected");
    assert_eq!(
        Error::ConnectionDoesNotExist.message(),
        "Audio graph connection does not exist"
    );
    assert_eq!(
        Error::RefDoesNotExist.message(),
        "Audio graph reference does not exist"
    );
    assert_eq!(
        Error::InvalidPortType.message(),
        "Cannot connect audio graph ports. Ports are a different type"
    );
}

#[test]
fn idents() {
    let mut graph = Graph::default();
    let a = graph.node("A");
    let p = graph.port(a, DefaultPortType::Audio, "out").unwrap();
    assert_eq!(*graph.node_ident(a).unwrap(), "A");
    assert_eq!(*graph.port_ident(p).unwrap(), "out");
    graph.set_node_ident(a, "A2").unwrap();
    graph.set_port_ident(p, "out2").unwrap();
    assert_eq!(*graph.node_ident(a).unwrap(), "A2");
    assert_eq!(*graph.port_ident(p).unwrap(), "out2");
}

#[test]
fn handle_recycling() {
    let mut graph = Graph::default();
    let a = graph.node("A");
    let b = graph.node("B");
    let a_out = graph.port(a, DefaultPortType::Audio, "out").unwrap();
    let b_in = graph.port(b, DefaultPortType::Audio, "in").unwrap();
    graph.connect(a_out, b_in).unwrap();
    graph.delete_node(a).unwrap();
    // the freed handle comes back, with no surviving edges or ports
    let a2 = graph.node("A2");
    assert_eq!(a2, a);
    assert!(matches!(graph.port_ident(a_out), Err(Error::PortDoesNotExist)));
    let schedule = graph.compile();
    // B still lives and has no inputs left
    let b_entry = schedule
        .iter()
        .find(|e| e.node == "B")
        .expect("B must be scheduled");
    assert!(b_entry.inputs.is_empty());
}

#[test]
fn idempotent_connect() {
    let mut graph = Graph::default();
    let a = graph.node("A");
    let b = graph.node("B");
    let a_out = graph.port(a, DefaultPortType::Audio, "out").unwrap();
    let b_in = graph.port(b, DefaultPortType::Audio, "in").unwrap();
    assert!(graph.connect(a_out, b_in).is_ok());
    assert!(graph.connect(a_out, b_in).is_ok());
    let schedule = graph.compile();
    let b_entry = schedule.iter().find(|e| e.node == "B").unwrap();
    // exactly one edge: one input port with one buffer tuple
    assert_eq!(b_entry.inputs.len(), 1);
    assert_eq!(b_entry.inputs[0].1.len(), 1);
    // and it can be disconnected exactly once
    assert!(graph.disconnect(a_out, b_in).is_ok());
    assert!(matches!(
        graph.disconnect(a_out, b_in),
        Err(Error::ConnectionDoesNotExist)
    ));
}

#[test]
fn buffer_reuse_in_chain() {
    // A -> B -> C -> D: two audio buffers suffice, ping-ponging
    let mut graph = Graph::default();
    let a = graph.node("A");
    let b = graph.node("B");
    let c = graph.node("C");
    let d = graph.node("D");
    let a_out = graph.port(a, DefaultPortType::Audio, "a_out").unwrap();
    let b_out = graph.port(b, DefaultPortType::Audio, "b_out").unwrap();
    let b_in = graph.port(b, DefaultPortType::Audio, "b_in").unwrap();
    let c_out = graph.port(c, DefaultPortType::Audio, "c_out").unwrap();
    let c_in = graph.port(c, DefaultPortType::Audio, "c_in").unwrap();
    let d_in = graph.port(d, DefaultPortType::Audio, "d_in").unwrap();
    graph.connect(a_out, b_in).unwrap();
    graph.connect(b_out, c_in).unwrap();
    graph.connect(c_out, d_in).unwrap();
    let schedule = graph.compile();
    assert_eq!(schedule.len(), 4);
    let mut max_index = 0;
    for entry in schedule.iter() {
        for (_, buffer) in entry.outputs.iter() {
            if buffer.index > max_index {
                max_index = buffer.index;
            }
        }
    }
    // indices 0 and 1 only: each consumed buffer is recycled immediately
    assert_eq!(max_index, 1);
}

#[test]
fn fan_out_shares_one_buffer() {
    let mut graph = Graph::default();
    let a = graph.node("A");
    let a_out = graph.port(a, DefaultPortType::Audio, "out").unwrap();
    let mut consumers = Vec::new();
    for ident in ["B", "C", "D"] {
        let n = graph.node(ident);
        let p = graph.port(n, DefaultPortType::Audio, "in").unwrap();
        graph.connect(a_out, p).unwrap();
        consumers.push(ident);
    }
    let schedule = graph.compile();
    assert_eq!(schedule.len(), 4);
    let a_entry = schedule.iter().find(|e| e.node == "A").unwrap();
    assert_eq!(a_entry.outputs.len(), 1);
    let shared = a_entry.outputs[0].1.index;
    for ident in consumers {
        let entry = schedule.iter().find(|e| e.node == ident).unwrap();
        assert_eq!(entry.inputs.len(), 1);
        assert_eq!(entry.inputs[0].1.len(), 1);
        assert_eq!(entry.inputs[0].1[0].0.index, shared);
        assert_eq!(entry.inputs[0].1[0].1, 0);
    }
}

#[test]
fn empty_graph_compiles_to_nothing() {
    let mut graph: Graph<&str, &str, DefaultPortType> = Graph::default();
    assert!(graph.compile().is_empty());
    // still empty after an add and delete
    let a = graph.node("A");
    graph.delete_node(a).unwrap();
    assert!(graph.compile().is_empty());
}

#[test]
fn compile_is_pure() {
    let mut graph = Graph::default();
    let a = graph.node("A");
    let b = graph.node("B");
    let a_out = graph.port(a, DefaultPortType::Audio, "out").unwrap();
    let b_in = graph.port(b, DefaultPortType::Audio, "in").unwrap();
    graph.connect(a_out, b_in).unwrap();
    graph.set_delay(a, 7).unwrap();
    let first = graph.compile();
    let second = graph.compile();
    assert_eq!(first.len(), second.len());
    for (x, y) in first.iter().zip(second.iter()) {
        assert_eq!(x.node, y.node);
        assert_eq!(x.outputs.len(), y.outputs.len());
        for ((pi, bi), (pj, bj)) in x.outputs.iter().zip(y.outputs.iter()) {
            assert_eq!(pi, pj);
            assert_eq!(bi.index, bj.index);
            assert_eq!(bi.type_, bj.type_);
        }
        assert_eq!(x.inputs.len(), y.inputs.len());
        for ((pi, vi), (pj, vj)) in x.inputs.iter().zip(y.inputs.iter()) {
            assert_eq!(pi, pj);
            assert_eq!(vi.len(), vj.len());
            for ((bi, ci), (bj, cj)) in vi.iter().zip(vj.iter()) {
                assert_eq!(bi.index, bj.index);
                assert_eq!(bi.type_, bj.type_);
                assert_eq!(ci, cj);
            }
        }
    }
}

#[test]
fn per_type_buffer_pools() {
    let mut graph = Graph::default();
    let a = graph.node("A");
    let b = graph.node("B");
    let a_audio = graph.port(a, DefaultPortType::Audio, "a_audio").unwrap();
    let a_event = graph.port(a, DefaultPortType::Event, "a_event").unwrap();
    let b_audio = graph.port(b, DefaultPortType::Audio, "b_audio").unwrap();
    let b_event = graph.port(b, DefaultPortType::Event, "b_event").unwrap();
    graph.connect(a_audio, b_audio).unwrap();
    graph.connect(a_event, b_event).unwrap();
    let schedule = graph.compile();
    let a_entry = schedule.iter().find(|e| e.node == "A").unwrap();
    assert_eq!(a_entry.outputs.len(), 2);
    // each type draws from its own dense pool, so both start at index 0
    assert_eq!(a_entry.outputs[0].1.index, 0);
    assert_eq!(a_entry.outputs[1].1.index, 0);
    assert_eq!(a_entry.outputs[0].1.type_, DefaultPortType::Audio);
    assert_eq!(a_entry.outputs[1].1.type_, DefaultPortType::Event);
    let b_entry = schedule.iter().find(|e| e.node == "B").unwrap();
    assert_eq!(b_entry.inputs.len(), 2);
    assert_eq!(b_entry.outputs.len(), 0);
}

#[test]
fn delete_port_removes_every_edge() {
    let mut graph = Graph::default();
    let a = graph.node("A");
    let b = graph.node("B");
    let c = graph.node("C");
    let a_out = graph.port(a, DefaultPortType::Audio, "out").unwrap();
    let b_in = graph.port(b, DefaultPortType::Audio, "b_in").unwrap();
    let c_in = graph.port(c, DefaultPortType::Audio, "c_in").unwrap();
    graph.connect(a_out, b_in).unwrap();
    graph.connect(a_out, c_in).unwrap();
    graph.delete_port(a_out).unwrap();
    for entry in graph.compile() {
        assert!(entry.inputs.is_empty());
        assert!(entry.outputs.is_empty());
    }
    assert!(matches!(
        graph.connect(a_out, b_in),
        Err(Error::PortDoesNotExist)
    ));
}

#[test]
fn topological_order_of_chain() {
    let mut graph = Graph::default();
    let c = graph.node("C");
    let b = graph.node("B");
    let a = graph.node("A");
    let a_out = graph.port(a, DefaultPortType::Audio, "a_out").unwrap();
    let b_in = graph.port(b, DefaultPortType::Audio, "b_in").unwrap();
    let b_out = graph.port(b, DefaultPortType::Audio, "b_out").unwrap();
    let c_in = graph.port(c, DefaultPortType::Audio, "c_in").unwrap();
    graph.connect(a_out, b_in).unwrap();
    graph.connect(b_out, c_in).unwrap();
    let order = graph.topo_order();
    assert_eq!(order.len(), 3);
    assert_eq!(order[0], a);
    assert_eq!(order[1], b);
    assert_eq!(order[2], c);
}
