use tsp_anneal::scanner::Scanner;
use tsp_anneal::tsplib::{read_tsp, TspError};

fn text(v: &[char]) -> String {
    v.iter().collect()
}

fn read(input: &str) -> Result<Vec<(String, String)>, TspError> {
    let mut sc = Scanner::new(input);
    read_tsp(&mut sc).map(|v| v.iter().map(|(x, y)| (text(x), text(y))).collect())
}

const SMALL: &str = "NAME : small\nCOMMENT : three nodes\nTYPE : TSP\nDIMENSION : 3\nEDGE_WEIGHT_TYPE : EUC_2D\nNODE_COORD_SECTION\n1 0.0 0.0\n2 3.5 4\n 3   1e2 -7\nEOF\n";

#[test]
fn reads_coordinates_of_each_node() {
    let v = read(SMALL).unwrap();
    assert_eq!(
        v,
        vec![
            ("0.0".to_string(), "0.0".to_string()),
            ("3.5".to_string(), "4".to_string()),
            ("1e2".to_string(), "-7".to_string()),
        ]
    );
}

#[test]
fn dimension_zero_reads_no_node() {
    assert_eq!(read("DIMENSION : 0\nNODE_COORD_SECTION\n").unwrap(), vec![]);
}

#[test]
fn no_dimension_means_no_node() {
    assert_eq!(read("NODE_COORD_SECTION\n1 2 3\n").unwrap(), vec![]);
    assert_eq!(read("").unwrap(), vec![]);
}

#[test]
fn last_dimension_counts() {
    let v = read("DIMENSION : 5\nDIMENSION : 1\nNODE_COORD_SECTION\n1 2 3\n").unwrap();
    assert_eq!(v, vec![("2".to_string(), "3".to_string())]);
}

#[test]
fn edge_weight_type_must_be_euc_2d() {
    match read("EDGE_WEIGHT_TYPE : GEO\nNODE_COORD_SECTION\n") {
        Err(TspError::WrongEdgeWeightType(t)) => assert_eq!(text(&t), "GEO"),
        other => panic!("unexpected {:?}", other),
    }
    // Without a value after the separator the check does not apply.
    assert_eq!(read("EDGE_WEIGHT_TYPE :").unwrap(), vec![]);
}

#[test]
fn dimension_needs_a_value() {
    assert!(matches!(read("DIMENSION :"), Err(TspError::MissingDimension)));
    assert!(matches!(read("DIMENSION"), Err(TspError::MissingDimension)));
    match read("DIMENSION : many\n") {
        Err(TspError::BadDimension(t)) => assert_eq!(text(&t), "many"),
        other => panic!("unexpected {:?}", other),
    }
}

#[test]
fn node_index_must_be_a_number() {
    match read("DIMENSION : 2\nNODE_COORD_SECTION\n1 5 6\nx 1 2\n") {
        Err(TspError::BadIndex(t, before)) => {
            assert_eq!(text(&t), "x");
            assert_eq!(before.iter().map(|t| text(t)).collect::<Vec<_>>(), vec!["5", "6"]);
        }
        other => panic!("unexpected {:?}", other),
    }
}

#[test]
fn too_few_nodes_is_refused() {
    let read_before = |input: &str| match read(input) {
        Err(TspError::MissingToken(before)) => before.iter().map(|t| text(t)).collect::<Vec<_>>(),
        other => panic!("unexpected {:?}", other),
    };
    assert_eq!(read_before("DIMENSION : 2\nNODE_COORD_SECTION\n1 1 2\n"), vec!["1", "2"]);
    assert_eq!(read_before("DIMENSION : 2\nNODE_COORD_SECTION\n1 1 2\n2"), vec!["1", "2"]);
    assert_eq!(read_before("DIMENSION : 1\nNODE_COORD_SECTION\n1 1"), vec!["1"]);
    assert_eq!(read_before("DIMENSION : 1\nNODE_COORD_SECTION\n"), Vec::<String>::new());
}

#[test]
fn reading_runs_out_only_when_a_token_is_missing() {
    let runs_out = |input: &str| {
        let mut sc = Scanner::new(input);
        let _ = read_tsp(&mut sc);
        sc.exhausted()
    };
    assert!(runs_out(""));
    assert!(runs_out("NAME : x\nDIMENSION : 0\n"));
    assert!(runs_out("DIMENSION :"));
    assert!(runs_out("DIMENSION : 1\nNODE_COORD_SECTION\n1 2"));
    assert!(!runs_out(SMALL));
    assert!(!runs_out("DIMENSION : 1\nNODE_COORD_SECTION\n1 2 3"));
    assert!(!runs_out("EDGE_WEIGHT_TYPE : GEO\n"));
    assert!(!runs_out("DIMENSION : 1\nNODE_COORD_SECTION\nx 2 3\n"));
}
