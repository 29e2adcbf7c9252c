use neophanim::{Graph, Node, NodeList, ColumnLabelList, RowEntryList};

fn total_rows(g: &Graph) -> usize {
    let mut sum = 0;
    let mut i = 0;
    while i < g.n.count() {
        sum += g.n.get(i).r.count();
        i += 1;
    }
    sum
}

#[test]
fn round_trip_keeps_digits() {
    let mut g = Graph::new();
    let cols = g.register_number(String::from("10110"));
    assert_eq!(g.extract_number(&cols), "10110");
}

#[test]
fn round_trip_strips_leading_zeros() {
    let mut g = Graph::new();
    let cols = g.register_number(String::from("00101"));
    assert_eq!(g.extract_number(&cols), "101");
}

#[test]
fn round_trip_zero() {
    let mut g = Graph::new();
    let cols = g.register_number(String::from("000"));
    assert_eq!(g.extract_number(&cols), "0");
}

#[test]
fn addition_example() {
    // "10" + "11" = "101"
    let mut g = Graph::new();
    let a = g.register_number(String::from("10"));
    let b = g.register_number(String::from("11"));
    let s = g.add_numbers(&a, &b);
    g.collapse_fwd();
    assert_eq!(g.extract_number(&s), "101");
}

#[test]
fn multiplication_example() {
    // "10" * "11" = "110"
    let mut g = Graph::new();
    let a = g.register_number(String::from("10"));
    let b = g.register_number(String::from("11"));
    let m = g.mul_numbers(&a, &b);
    g.collapse_fwd();
    assert_eq!(g.extract_number(&m), "110");
}

#[test]
fn addition_with_carry_chain() {
    let mut g = Graph::new();
    let a = g.register_number(String::from("111"));
    let b = g.register_number(String::from("1"));
    let s = g.add_numbers(&a, &b);
    g.collapse_fwd();
    assert_eq!(g.extract_number(&s), "1000");
}

#[test]
fn and_shortcuts_allocate_nothing() {
    let mut g = Graph::new();
    let x = g.register_var();
    let t = g.register_bit(true);
    let f = g.register_bit(false);
    let nodes_before = g.n.count();
    let cols_before = g.c;
    // register_and(x, x) == x
    assert_eq!(g.register_and(x, x), x);
    // register_and(x, FALSE) == FALSE
    assert_eq!(g.register_and(x, f), f);
    assert_eq!(g.register_and(f, x), f);
    // register_and(x, TRUE) == x
    assert_eq!(g.register_and(x, t), x);
    assert_eq!(g.register_and(t, x), x);
    assert_eq!(g.n.count(), nodes_before);
    assert_eq!(g.c, cols_before);
}

#[test]
fn and_general_allocates_one_gate() {
    let mut g = Graph::new();
    let x = g.register_var();
    let y = g.register_var();
    let nodes_before = g.n.count();
    let cols_before = g.c;
    let o = g.register_and(x, y);
    assert_eq!(o, cols_before);
    assert_eq!(g.c, cols_before + 1);
    assert_eq!(g.n.count(), nodes_before + 1);
    let nd = g.n.get(nodes_before);
    assert_eq!(nd.c.l, vec![o, x, y]);
    assert_eq!(nd.r.l, vec![0, 2, 4, 7]);
}

#[test]
fn collapse_fwd_reaches_fixpoint() {
    // a second collapse after one has reached fixpoint deletes no row
    let mut g = Graph::new();
    let a = g.register_number(String::from("1011"));
    let b = g.register_number(String::from("110"));
    let m = g.mul_numbers(&a, &b);
    g.collapse_fwd();
    let rows_after_first = total_rows(&g);
    g.collapse_fwd();
    assert_eq!(total_rows(&g), rows_after_first);
    // 11 * 6 = 66
    assert_eq!(g.extract_number(&m), "1000010");
}

#[test]
fn normalization_collapses_duplicate_scope_column() {
    // a node over scope [5, 5] keeps one occurrence of column 5 and
    // only the rows where both positions agreed, repacked to one bit
    let mut nl = NodeList::new();
    let nd = Node {
        n: 0,
        c: ColumnLabelList { l: vec![5, 5] },
        r: RowEntryList { l: vec![0b00, 0b01, 0b10, 0b11] },
        a: true,
    };
    nl.add(nd);
    assert_eq!(nl.get(0).c.l, vec![5]);
    assert_eq!(nl.get(0).r.l, vec![0b0, 0b1]);
}

#[test]
fn adder_truth_table() {
    let mut g = Graph::new();
    let mut i = ColumnLabelList::new();
    let x = g.register_var();
    let y = g.register_var();
    let z = g.register_var();
    i.add(x);
    i.add(y);
    i.add(z);
    let nodes_before = g.n.count();
    let o = g.register_adder(&i);
    assert_eq!(o.count(), 2);
    assert_eq!(g.n.count(), nodes_before + 1);
    let nd = g.n.get(nodes_before);
    // scope [sum, carry, a, b, c]; rows (e << 2) | popcount(e)
    assert_eq!(nd.c.l, vec![o.get(1), o.get(0), x, y, z]);
    assert_eq!(nd.r.l, vec![0, 5, 9, 14, 17, 22, 26, 31]);
}

#[test]
fn extract_bit_reads_terminals() {
    let mut g = Graph::new();
    let f = g.register_bit(false);
    let t = g.register_bit(true);
    assert_eq!(f, 0);
    assert_eq!(t, 1);
    assert!(!g.extract_bit(f));
    assert!(g.extract_bit(t));
}

#[test]
fn switched_number_gates_and_shifts() {
    let mut g = Graph::new();
    let n = g.register_number(String::from("101"));
    let f = g.register_bit(false);
    let nodes_before = g.n.count();
    let cols_before = g.c;
    // selector false: every gated bit folds to the false terminal and
    // the graph is untouched
    let pp = g.register_switched_number(&n, f, 2);
    assert_eq!(g.n.count(), nodes_before);
    assert_eq!(g.c, cols_before);
    assert_eq!(pp.count(), 5);
    let mut k = 0;
    while k < pp.count() {
        assert_eq!(pp.get(k), 0);
        k += 1;
    }
    assert_eq!(g.extract_number(&pp), "0");
}
