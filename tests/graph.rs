use dagcheck::detect::{detect_cycle, CycleResult};
use dagcheck::graph::{build_graph, Graph, Node};
use dagcheck::input::{parse_edges, spell, validate_text, Exit};

fn n(c: char) -> Node {
    Node(c)
}

fn graph_of(pairs: &str) -> Graph {
    let chars: Vec<char> = pairs.chars().collect();
    let mut edges = Vec::new();
    let mut i = 0;
    while i + 1 < chars.len() {
        edges.push((Node(chars[i]), Node(chars[i + 1])));
        i += 2;
    }
    build_graph(&edges)
}

fn rotations(s: &str) -> Vec<String> {
    let chars: Vec<char> = s.chars().collect();
    let mut out = Vec::new();
    for k in 0..chars.len() {
        let mut r: String = chars[k..].iter().collect();
        r.extend(chars[..k].iter());
        out.push(r);
    }
    out
}

fn cycle_text(r: &CycleResult) -> Option<String> {
    match r {
        CycleResult::NoCycle => None,
        CycleResult::Cycle(c) => Some(c.iter().map(|x| x.0).collect()),
    }
}

#[test]
fn build_keeps_sources_in_order() {
    let g = graph_of("BACADBBA");
    assert_eq!(g.roots(), vec![n('B'), n('C'), n('D')]);
    assert_eq!(g.len(), 3);
    assert_eq!(g.key(1), n('C'));
    assert_eq!(*g.successors(0), vec![n('A'), n('A')]);
    assert_eq!(*g.successors(2), vec![n('B')]);
    assert_eq!(g.index_of(n('D')), Some(2));
    assert_eq!(g.index_of(n('A')), None);
}

#[test]
fn build_from_no_edges_is_empty() {
    let g = build_graph(&Vec::new());
    assert_eq!(g.len(), 0);
    assert_eq!(detect_cycle(&g), CycleResult::NoCycle);
}

#[test]
fn chain_has_no_cycle() {
    assert_eq!(detect_cycle(&graph_of("ABBDDF")), CycleResult::NoCycle);
}

#[test]
fn diamond_has_no_cycle() {
    assert_eq!(detect_cycle(&graph_of("ABACBDCDDE")), CycleResult::NoCycle);
}

#[test]
fn triangle_is_found_in_some_rotation() {
    let r = detect_cycle(&graph_of("ABBCCA"));
    let s = cycle_text(&r).unwrap();
    assert!(rotations("ABC").contains(&s));
}

#[test]
fn two_cycle_is_found() {
    let r = detect_cycle(&graph_of("BAAB"));
    let s = cycle_text(&r).unwrap();
    assert!(rotations("AB").contains(&s));
}

#[test]
fn lone_self_loop() {
    assert_eq!(detect_cycle(&graph_of("AA")), CycleResult::Cycle(vec![n('A')]));
}

#[test]
fn self_loop_among_other_edges() {
    let r = detect_cycle(&graph_of("ABBCCACDDD"));
    assert_eq!(r, CycleResult::Cycle(vec![n('D')]));
}

#[test]
fn large_scenario_finds_hldf() {
    let r = detect_cycle(&graph_of(
        "ABBDCMDFEFCECDFGFHFIFJFKHLILJLELLDJKZFZJBILK",
    ));
    let s = cycle_text(&r).unwrap();
    assert!(rotations("HLDF").contains(&s));
}

#[test]
fn detection_twice_agrees() {
    let g = graph_of("ABBDCMDFEFCECDFGFHFIFJFKHLILJLELLDJKZFZJBILK");
    assert_eq!(detect_cycle(&g), detect_cycle(&g));
}

#[test]
fn parse_edges_reads_first_two_characters() {
    let text: Vec<char> = "ABX\nCD\r\nEF".chars().collect();
    let edges = parse_edges(&text).unwrap();
    assert_eq!(edges, vec![(n('A'), n('B')), (n('C'), n('D')), (n('E'), n('F'))]);
}

#[test]
fn parse_edges_rejects_short_line() {
    let text: Vec<char> = "AB\nC\n".chars().collect();
    assert_eq!(parse_edges(&text), None);
    let empty: Vec<char> = Vec::new();
    assert_eq!(parse_edges(&empty), Some(Vec::new()));
}

#[test]
fn spell_writes_node_characters() {
    assert_eq!(spell(&vec![n('x'), n('\u{306}'), n('z')]), "x\u{306}z");
    assert_eq!(spell(&Vec::new()), "");
}

#[test]
fn validate_text_reports_each_outcome() {
    let cyc: Vec<char> = "PQ\nQP\n".chars().collect();
    let (exit, cycle) = validate_text(&cyc);
    assert_eq!(exit, Exit::Cycle);
    let s = cycle.unwrap();
    assert!(s == "PQ" || s == "QP");
    let acyc: Vec<char> = "PQ\n".chars().collect();
    assert_eq!(validate_text(&acyc), (Exit::NoCycle, None));
    let bad: Vec<char> = "P\n".chars().collect();
    assert_eq!(validate_text(&bad), (Exit::InvalidInput, None));
}
