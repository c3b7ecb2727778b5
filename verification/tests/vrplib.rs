//! Reading instance and solution files.

use volare::vrplib::{
    ParseError, SCALE, check_cvrp, check_sol, check_vrptw, read_cvrp, read_sol, read_vrptw,
};
use volare::NodeId;

const CVRP: &[u8] = b"NAME : tiny\r\nCOMMENT : two customers\r\nTYPE : CVRP\r\n\
    DIMENSION : 3\r\nEDGE_WEIGHT_TYPE : EUC_2D\r\nCAPACITY : 100\r\n\
    NODE_COORD_SECTION\r\n 1 0 0\r\n 2 3.5 4\r\n 3 -1 7\r\n\
    DEMAND_SECTION\r\n1 0\r\n2 10\r\n3 20\r\nDEPOT_SECTION\r\n 1\r\n -1\r\nEOF\r\n";

#[test]
fn a_cvrp_file_reads_field_by_field() {
    assert_eq!(check_cvrp(CVRP), Ok(()));
    let inst = read_cvrp(CVRP);
    assert_eq!(inst.name, b"tiny".to_vec());
    assert_eq!(inst.capacity, 100);
    assert_eq!(inst.demands, vec![0, 10, 20]);
    assert_eq!(inst.depot, NodeId(0));
    let coords: Vec<(Vec<u8>, Vec<u8>)> = vec![
        (b"0".to_vec(), b"0".to_vec()),
        (b"3.5".to_vec(), b"4".to_vec()),
        (b"-1".to_vec(), b"7".to_vec()),
    ];
    assert_eq!(inst.coords, coords);
    assert!(inst.windows.is_empty());
    assert_eq!(inst.service_time, 0);
}

fn with(from: &str, to: &str) -> Vec<u8> {
    String::from_utf8(CVRP.to_vec()).unwrap().replace(from, to).into_bytes()
}

#[test]
fn each_malformed_cvrp_file_says_why() {
    assert_eq!(check_cvrp(&with("DIMENSION : 3", "DIMENSION : three")).err(), Some(ParseError::BadNumber));
    assert_eq!(check_cvrp(&with("EUC_2D", "GEO")).err(), Some(ParseError::UnsupportedMetric));
    assert_eq!(check_cvrp(&with("2 10\r\n", "2\r\n")).err(), Some(ParseError::ShortRow));
    assert_eq!(check_cvrp(&with("DIMENSION : 3", "DIMENSION : 4")).err(), Some(ParseError::CoordCount));
    assert_eq!(check_cvrp(&with("3 20\r\n", "")).err(), Some(ParseError::DemandCount));
    assert_eq!(check_cvrp(&with(" 1\r\n -1", " -1")).err(), Some(ParseError::NoDepot));
    assert_eq!(check_cvrp(&with(" 1\r\n -1", " 9\r\n -1")).err(), Some(ParseError::BadDepot));
    assert_eq!(check_cvrp(&with(" 1\r\n -1", " 2\r\n -1")).err(), Some(ParseError::DepotHasDemand));
}

#[test]
fn a_vrptw_file_scales_its_times() {
    let text = b"NAME : tw\nDIMENSION : 2\nCAPACITY : 50\nSERVICE_TIME : 10\n\
        EDGE_WEIGHT_TYPE : EUC_2D\nNODE_COORD_SECTION\n1 40 50\n2 45 68\n\
        DEMAND_SECTION\n1 0\n2 10\nTIME_WINDOW_SECTION\n1 0 1236\n2 912 967\n\
        DEPOT_SECTION\n1\n-1\nEOF\n";
    let inst = read_vrptw(text);
    assert_eq!(inst.service_time, 10 * SCALE);
    assert_eq!(inst.windows, vec![(0, 1236 * SCALE), (912 * SCALE, 967 * SCALE)]);
    // The same file read as plain CVRP skips the window section.
    let plain = read_cvrp(text);
    assert!(plain.windows.is_empty());
    assert_eq!(plain.service_time, 0);
    // A window row short of a field.
    let short = String::from_utf8(text.to_vec()).unwrap().replace("2 912 967", "2 912").into_bytes();
    assert_eq!(check_vrptw(&short).err(), Some(ParseError::ShortRow));
}

#[test]
fn a_solution_file_lists_routes_and_costs() {
    assert_eq!(check_sol(b"Route #1: 1 3\nRoute #2: 2\n\nCost 27591\n"), Ok(()));
    let sol = read_sol(b"Route #1: 1 3\nRoute #2: 2\n\nCost 27591\n");
    assert_eq!(sol.routes, vec![vec![NodeId(1), NodeId(3)], vec![NodeId(2)]]);
    assert_eq!(sol.costs, vec![b"27591".to_vec()]);
    assert_eq!(check_sol(b"Route 1 2\n").err(), Some(ParseError::MalformedRoute));
    assert_eq!(check_sol(b"Route #1: 1 x\n").err(), Some(ParseError::BadNumber));
}
