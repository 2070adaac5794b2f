use jieba_rs::sparse_dag::StaticSparseDAG;

#[test]
fn test_static_sparse_dag() {
    let mut dag = StaticSparseDAG::with_size_hint(5);
    let mut ans: Vec<Vec<usize>> = vec![Vec::new(); 5];
    for i in 0..=3 {
        dag.start(i);
        for j in (i + 1)..=4 {
            ans[i].push(j);
            dag.insert(j);
        }

        dag.commit()
    }

    assert_eq!(dag.size_hint_for_iterator, 4);

    for i in 0..=3 {
        let mut edges: Vec<usize> = Vec::new();
        let mut it = dag.iter_edges(i);
        while let Some(e) = it.next() {
            edges.push(e);
        }
        assert_eq!(ans[i], edges);
        assert_eq!(ans[i], dag.edges(i));
    }
}

#[test]
fn test_memory_allocation_cap() {
    // Test that very large hints are properly capped
    let huge_hint = 1_000_000_000; // 1 billion
    let dag = StaticSparseDAG::with_size_hint(huge_hint);
    println!("Successfully created DAG with huge hint: {}", huge_hint);
    assert_eq!(dag.size_hint_for_iterator, 0);

    // Test with normal hint
    let normal_hint = 1000;
    let dag2 = StaticSparseDAG::with_size_hint(normal_hint);
    println!("Successfully created DAG with normal hint: {}", normal_hint);
    assert_eq!(dag2.size_hint_for_iterator, 0);
}

#[test]
fn sparse_dag_replaces_a_restarted_node_and_clears() {
    let mut dag = StaticSparseDAG::with_size_hint(2);
    dag.start(7);
    dag.insert(8);
    dag.insert(9);
    dag.commit();
    dag.start(3);
    dag.commit();
    assert_eq!(dag.edges(7), vec![8, 9]);
    assert_eq!(dag.edges(3), Vec::<usize>::new());
    dag.start(7);
    dag.insert(10);
    dag.commit();
    assert_eq!(dag.edges(7), vec![10]);
    assert_eq!(dag.size_hint_for_iterator, 2);
    dag.clear();
    dag.start(1);
    dag.insert(2);
    dag.commit();
    assert_eq!(dag.edges(1), vec![2]);
}
