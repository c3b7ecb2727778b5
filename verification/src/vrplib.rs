//! The VRPLIB text layout the CVRP and VRPTW instance files share: header
//! lines `KEY : value`, then `..._SECTION` lines each heading rows of
//! whitespace-separated fields, and the `.sol` layout of published
//! solutions: `Route #k: stops` lines and a `Cost` line.
//!
//! Coordinates are read here as their text only: turning them into numbers,
//! and the metric, belong to the caller.

use vstd::prelude::*;

use crate::text::{int_of, lines, parse_int, same_bytes, split_lines, split_words, trim, trimmed, words};
use crate::types::NodeId;

verus! {

/// Times in VRPTW files are scaled by this into integers, so published
/// costs reproduce exactly.
pub const SCALE: i64 = 10;

/// The data section a row belongs to.
#[derive(Debug, Clone, Copy, PartialEq, Eq, Structural)]
pub enum Section {
    Other,
    Coord,
    Demand,
    Window,
    Depot,
}

/// Why an instance or solution file could not be read.
#[derive(Debug, Clone, Copy, PartialEq, Eq, Structural)]
pub enum ParseError {
    /// A field the layout needs as an integer is not one, or out of range.
    BadNumber,
    /// `EDGE_WEIGHT_TYPE` is not `EUC_2D`.
    UnsupportedMetric,
    /// A row lacks a field its section needs.
    ShortRow,
    /// A `Route` line has no `:`.
    MalformedRoute,
    /// The coordinate rows do not number `DIMENSION`.
    CoordCount,
    /// The demand rows do not number `DIMENSION`.
    DemandCount,
    /// The time window rows do not number `DIMENSION`.
    WindowCount,
    /// No depot is named.
    NoDepot,
    /// The depot named is not a node of the instance.
    BadDepot,
    /// The depot has a demand.
    DepotHasDemand,
}

/// `NAME`
pub open spec fn kw_name() -> Seq<u8> {
    seq![78u8, 65, 77, 69]
}

/// `DIMENSION`
pub open spec fn kw_dimension() -> Seq<u8> {
    seq![68u8, 73, 77, 69, 78, 83, 73, 79, 78]
}

/// `CAPACITY`
pub open spec fn kw_capacity() -> Seq<u8> {
    seq![67u8, 65, 80, 65, 67, 73, 84, 89]
}

/// `SERVICE_TIME`
pub open spec fn kw_service_time() -> Seq<u8> {
    seq![83u8, 69, 82, 86, 73, 67, 69, 95, 84, 73, 77, 69]
}

/// `EDGE_WEIGHT_TYPE`
pub open spec fn kw_edge_weight_type() -> Seq<u8> {
    seq![69u8, 68, 71, 69, 95, 87, 69, 73, 71, 72, 84, 95, 84, 89, 80, 69]
}

/// `EUC_2D`
pub open spec fn kw_euc_2d() -> Seq<u8> {
    seq![69u8, 85, 67, 95, 50, 68]
}

/// `EOF`
pub open spec fn kw_eof() -> Seq<u8> {
    seq![69u8, 79, 70]
}

/// `_SECTION`
pub open spec fn kw_section() -> Seq<u8> {
    seq![95u8, 83, 69, 67, 84, 73, 79, 78]
}

/// `NODE_COORD_SECTION`
pub open spec fn kw_coord_section() -> Seq<u8> {
    seq![78u8, 79, 68, 69, 95, 67, 79, 79, 82, 68, 95, 83, 69, 67, 84, 73, 79, 78]
}

/// `DEMAND_SECTION`
pub open spec fn kw_demand_section() -> Seq<u8> {
    seq![68u8, 69, 77, 65, 78, 68, 95, 83, 69, 67, 84, 73, 79, 78]
}

/// `TIME_WINDOW_SECTION`
pub open spec fn kw_window_section() -> Seq<u8> {
    seq![84u8, 73, 77, 69, 95, 87, 73, 78, 68, 79, 87, 95, 83, 69, 67, 84, 73, 79, 78]
}

/// `DEPOT_SECTION`
pub open spec fn kw_depot_section() -> Seq<u8> {
    seq![68u8, 69, 80, 79, 84, 95, 83, 69, 67, 84, 73, 79, 78]
}

/// `Route`
pub open spec fn kw_route() -> Seq<u8> {
    seq![82u8, 111, 117, 116, 101]
}

/// `Cost`
pub open spec fn kw_cost() -> Seq<u8> {
    seq![67u8, 111, 115, 116]
}

/// The integer a field spells as an `i64`.
pub open spec fn i64_of(s: Seq<u8>) -> Option<int> {
    int_of(s, true, i64::MIN as int, i64::MAX as int)
}

/// A time field: an `i64` scaled by `SCALE`, still an `i64`.
pub open spec fn time_of(s: Seq<u8>) -> Option<int> {
    match i64_of(s) {
        Some(v) => if i64::MIN <= v * SCALE <= i64::MAX {
            Some(v * SCALE)
        } else {
            None
        },
        None => None,
    }
}

/// The position of the first `:` in `t`.
pub open spec fn colon_at(t: Seq<u8>) -> Option<int> {
    if exists|p: int| 0 <= p < t.len() && t[p] == 58 {
        Some(choose|p: int| 0 <= p < t.len() && t[p] == 58 && forall|q: int| 0 <= q < p ==> t[q] != 58)
    } else {
        None
    }
}

/// `t` ends with `w`.
pub open spec fn ends_with(t: Seq<u8>, w: Seq<u8>) -> bool {
    t.len() >= w.len() && t.subrange(t.len() - w.len(), t.len() as int) == w
}

/// `t` starts with `w`.
pub open spec fn starts_with(t: Seq<u8>, w: Seq<u8>) -> bool {
    t.len() >= w.len() && t.subrange(0, w.len() as int) == w
}

/// The section a `..._SECTION` line opens; the time window section only
/// in a VRPTW file.
pub open spec fn section_of(tw: bool, t: Seq<u8>) -> Section {
    if t == kw_coord_section() {
        Section::Coord
    } else if t == kw_demand_section() {
        Section::Demand
    } else if tw && t == kw_window_section() {
        Section::Window
    } else if t == kw_depot_section() {
        Section::Depot
    } else {
        Section::Other
    }
}

/// An instance file read so far.
pub struct Doc {
    pub name: Seq<u8>,
    pub dimension: int,
    pub capacity: int,
    pub service: int,
    pub coords: Seq<(Seq<u8>, Seq<u8>)>,
    pub demands: Seq<int>,
    pub windows: Seq<(int, int)>,
    pub depot: Option<int>,
    pub section: Section,
}

/// Nothing read yet.
pub open spec fn empty_doc() -> Doc {
    Doc {
        name: Seq::empty(),
        dimension: 0,
        capacity: 0,
        service: 0,
        coords: Seq::empty(),
        demands: Seq::empty(),
        windows: Seq::empty(),
        depot: None,
        section: Section::Other,
    }
}

/// A header line `key : value`.
pub open spec fn read_header(tw: bool, d: Doc, key: Seq<u8>, value: Seq<u8>) -> Result<Doc, ParseError> {
    if key == kw_name() {
        Ok(Doc { name: value, ..d })
    } else if key == kw_dimension() {
        match int_of(value, false, 0, usize::MAX as int) {
            Some(v) => Ok(Doc { dimension: v, ..d }),
            None => Err(ParseError::BadNumber),
        }
    } else if key == kw_capacity() {
        match i64_of(value) {
            Some(v) => Ok(Doc { capacity: v, ..d }),
            None => Err(ParseError::BadNumber),
        }
    } else if tw && key == kw_service_time() {
        match time_of(value) {
            Some(v) => Ok(Doc { service: v, ..d }),
            None => Err(ParseError::BadNumber),
        }
    } else if key == kw_edge_weight_type() {
        if value == kw_euc_2d() {
            Ok(d)
        } else {
            Err(ParseError::UnsupportedMetric)
        }
    } else {
        Ok(d)
    }
}

/// A row of the current section, split into its fields `f`.
pub open spec fn read_row(d: Doc, f: Seq<Seq<u8>>) -> Result<Doc, ParseError> {
    match d.section {
        Section::Coord => if f.len() >= 3 {
            Ok(Doc { coords: d.coords.push((f[1], f[2])), ..d })
        } else {
            Err(ParseError::ShortRow)
        },
        Section::Demand => if f.len() >= 2 {
            match i64_of(f[1]) {
                Some(v) => Ok(Doc { demands: d.demands.push(v), ..d }),
                None => Err(ParseError::BadNumber),
            }
        } else {
            Err(ParseError::ShortRow)
        },
        Section::Window => if f.len() >= 3 {
            match (time_of(f[1]), time_of(f[2])) {
                (Some(a), Some(b)) => Ok(Doc { windows: d.windows.push((a, b)), ..d }),
                _ => Err(ParseError::BadNumber),
            }
        } else {
            Err(ParseError::ShortRow)
        },
        Section::Depot => if f.len() >= 1 {
            match i64_of(f[0]) {
                Some(v) => if v >= 0 && d.depot is None {
                    Ok(Doc { depot: Some(v), ..d })
                } else {
                    Ok(d)
                },
                None => Err(ParseError::BadNumber),
            }
        } else {
            Err(ParseError::ShortRow)
        },
        Section::Other => Ok(d),
    }
}

/// One trimmed line `t`: blank lines and `EOF` are skipped, a line with a
/// `:` is a header, one ending in `_SECTION` opens a section, and anything
/// else is a row of the current one.
#[verifier::opaque]
pub open spec fn read_line(tw: bool, d: Doc, t: Seq<u8>) -> Result<Doc, ParseError> {
    if t.len() == 0 || t == kw_eof() {
        Ok(d)
    } else {
        match colon_at(t) {
            Some(p) => read_header(tw, d, trim(t.subrange(0, p)), trim(t.subrange(p + 1, t.len() as int))),
            None => if ends_with(t, kw_section()) {
                Ok(Doc { section: section_of(tw, t), ..d })
            } else {
                read_row(d, words(t))
            },
        }
    }
}

/// The lines `ls` read in order; the first failure stops the reading.
pub open spec fn read_lines(tw: bool, ls: Seq<Seq<u8>>) -> Result<Doc, ParseError>
    decreases ls.len(),
{
    if ls.len() == 0 {
        Ok(empty_doc())
    } else {
        match read_lines(tw, ls.drop_last()) {
            Ok(d) => read_line(tw, d, trim(ls.last())),
            Err(e) => Err(e),
        }
    }
}

/// The checks on a file read to the end: one coordinate row per node, one
/// demand row per node (a time window row per node in a VRPTW file), and a
/// depot that is a node with no demand.
pub open spec fn finish(tw: bool, d: Doc) -> Result<Doc, ParseError> {
    if d.coords.len() != d.dimension {
        Err(ParseError::CoordCount)
    } else if !tw && d.demands.len() != d.dimension {
        Err(ParseError::DemandCount)
    } else if tw && d.windows.len() != d.dimension {
        Err(ParseError::WindowCount)
    } else {
        match d.depot {
            None => Err(ParseError::NoDepot),
            Some(id) => if id < 1 || id > u32::MAX || id - 1 >= d.demands.len() {
                Err(ParseError::BadDepot)
            } else if d.demands[id - 1] != 0 {
                Err(ParseError::DepotHasDemand)
            } else {
                Ok(d)
            },
        }
    }
}

/// What an instance file holds, VRPTW fields included when `tw`.
pub open spec fn read_instance(tw: bool, text: Seq<u8>) -> Result<Doc, ParseError> {
    match read_lines(tw, lines(text)) {
        Ok(d) => finish(tw, d),
        Err(e) => Err(e),
    }
}


/// An instance file being read.
pub struct Reader {
    pub name: Vec<u8>,
    pub dimension: usize,
    pub capacity: i64,
    pub service: i64,
    pub coords: Vec<(Vec<u8>, Vec<u8>)>,
    pub demands: Vec<i64>,
    pub windows: Vec<(i64, i64)>,
    pub depot: Option<i64>,
    pub section: Section,
}

/// What `r` has read.
pub open spec fn doc_of(r: Reader) -> Doc {
    Doc {
        name: r.name@,
        dimension: r.dimension as int,
        capacity: r.capacity as int,
        service: r.service as int,
        coords: r.coords@.map_values(|c: (Vec<u8>, Vec<u8>)| (c.0@, c.1@)),
        demands: r.demands@.map_values(|x: i64| x as int),
        windows: r.windows@.map_values(|w: (i64, i64)| (w.0 as int, w.1 as int)),
        depot: match r.depot {
            Some(x) => Some(x as int),
            None => None,
        },
        section: r.section,
    }
}

/// `s` copied.
fn to_vec(s: &[u8]) -> (r: Vec<u8>)
    ensures
        r@ == s@,
{
    let mut out: Vec<u8> = Vec::new();
    let mut i: usize = 0;
    while i < s.len()
        invariant
            i <= s@.len(),
            out@ == s@.subrange(0, i as int),
        decreases s@.len() - i,
    {
        out.push(s[i]);
        proof {
            assert(out@ =~= s@.subrange(0, i + 1));
        }
        i += 1;
    }
    proof {
        assert(out@ =~= s@);
    }
    out
}

/// `s[a..b]` copied.
fn sub_bytes(s: &[u8], a: usize, b: usize) -> (r: Vec<u8>)
    requires
        a <= b <= s@.len(),
    ensures
        r@ == s@.subrange(a as int, b as int),
{
    let mut out: Vec<u8> = Vec::new();
    let mut i: usize = a;
    while i < b
        invariant
            a <= i <= b <= s@.len(),
            out@ == s@.subrange(a as int, i as int),
        decreases b - i,
    {
        out.push(s[i]);
        proof {
            assert(out@ =~= s@.subrange(a as int, i + 1));
        }
        i += 1;
    }
    out
}

/// The position of the first `:` in `t`.
fn find_colon(t: &[u8]) -> (r: Option<usize>)
    ensures
        r matches Some(p) ==> colon_at(t@) == Some(p as int) && p < t@.len(),
        r is None ==> colon_at(t@) is None,
{
    let mut i: usize = 0;
    while i < t.len()
        invariant
            i <= t@.len(),
            forall|q: int| 0 <= q < i ==> t@[q] != 58,
        decreases t@.len() - i,
    {
        if t[i] == 58 {
            proof {
                let c = choose|p: int| 0 <= p < t@.len() && t@[p] == 58 && forall|q: int| 0 <= q < p ==> t@[q] != 58;
                assert(t@[i as int] == 58);
                if c < i {
                } else if c > i {
                    assert(t@[i as int] != 58);
                }
            }
            return Some(i);
        }
        i += 1;
    }
    None
}

/// `t` ends with `w`.
fn ends_with_bytes(t: &[u8], w: &[u8]) -> (r: bool)
    ensures
        r == ends_with(t@, w@),
{
    if t.len() < w.len() {
        return false;
    }
    let off = t.len() - w.len();
    let mut i: usize = 0;
    while i < w.len()
        invariant
            off + w@.len() == t@.len(),
            t@.len() == t.len(),
            i <= w@.len(),
            forall|j: int| 0 <= j < i ==> t@[off + j] == w@[j],
        decreases w@.len() - i,
    {
        if t[off + i] != w[i] {
            proof {
                assert(t@.subrange(off as int, t@.len() as int)[i as int] != w@[i as int]);
            }
            return false;
        }
        i += 1;
    }
    proof {
        assert(t@.subrange(off as int, t@.len() as int) =~= w@);
    }
    true
}

/// `t` starts with `w`.
fn starts_with_bytes(t: &[u8], w: &[u8]) -> (r: bool)
    ensures
        r == starts_with(t@, w@),
{
    if t.len() < w.len() {
        return false;
    }
    let mut i: usize = 0;
    while i < w.len()
        invariant
            w@.len() <= t@.len(),
            i <= w@.len(),
            forall|j: int| 0 <= j < i ==> t@[j] == w@[j],
        decreases w@.len() - i,
    {
        if t[i] != w[i] {
            proof {
                assert(t@.subrange(0, w@.len() as int)[i as int] != w@[i as int]);
            }
            return false;
        }
        i += 1;
    }
    proof {
        assert(t@.subrange(0, w@.len() as int) =~= w@);
    }
    true
}

/// A field as an `i64`.
fn read_i64(s: &[u8]) -> (r: Option<i64>)
    ensures
        r matches Some(v) ==> i64_of(s@) == Some(v as int),
        r is None ==> i64_of(s@) is None,
{
    match parse_int(s, true, i64::MIN as i128, i64::MAX as i128) {
        Some(v) => Some(v as i64),
        None => None,
    }
}

/// A time field, scaled.
fn read_time(s: &[u8]) -> (r: Option<i64>)
    ensures
        r matches Some(v) ==> time_of(s@) == Some(v as int),
        r is None ==> time_of(s@) is None,
{
    match read_i64(s) {
        Some(v) => v.checked_mul(SCALE),
        None => None,
    }
}


/// `res` is what reading wants: the doc `after` on success, else its error.
pub open spec fn stepped(res: Result<(), ParseError>, want: Result<Doc, ParseError>, after: Doc) -> bool {
    match res {
        Ok(_) => want == Ok::<Doc, ParseError>(after),
        Err(e) => want == Err::<Doc, ParseError>(e),
    }
}

#[verifier::rlimit(30)]
#[verifier::spinoff_prover]
fn read_header_line(tw: bool, r: &mut Reader, key: &[u8], value: &[u8]) -> (res: Result<(), ParseError>)
    ensures
        stepped(res, read_header(tw, doc_of(*old(r)), key@, value@), doc_of(*final(r))),
{
    let name: [u8; 4] = [78u8, 65, 77, 69];
    let dimension: [u8; 9] = [68u8, 73, 77, 69, 78, 83, 73, 79, 78];
    let capacity: [u8; 8] = [67u8, 65, 80, 65, 67, 73, 84, 89];
    let service: [u8; 12] = [83u8, 69, 82, 86, 73, 67, 69, 95, 84, 73, 77, 69];
    let metric: [u8; 16] = [69u8, 68, 71, 69, 95, 87, 69, 73, 71, 72, 84, 95, 84, 89, 80, 69];
    let euc: [u8; 6] = [69u8, 85, 67, 95, 50, 68];
    proof {
        assert(name@ == kw_name());
        assert(dimension@ == kw_dimension());
        assert(capacity@ == kw_capacity());
        assert(service@ == kw_service_time());
        assert(metric@ == kw_edge_weight_type());
        assert(euc@ == kw_euc_2d());
    }
    if same_bytes(key, &name) {
        r.name = to_vec(value);
        Ok(())
    } else if same_bytes(key, &dimension) {
        match parse_int(value, false, 0, usize::MAX as i128) {
            Some(v) => {
                r.dimension = v as usize;
                Ok(())
            },
            None => Err(ParseError::BadNumber),
        }
    } else if same_bytes(key, &capacity) {
        match read_i64(value) {
            Some(v) => {
                r.capacity = v;
                Ok(())
            },
            None => Err(ParseError::BadNumber),
        }
    } else if tw && same_bytes(key, &service) {
        match read_time(value) {
            Some(v) => {
                r.service = v;
                Ok(())
            },
            None => Err(ParseError::BadNumber),
        }
    } else if same_bytes(key, &metric) {
        if same_bytes(value, &euc) {
            Ok(())
        } else {
            Err(ParseError::UnsupportedMetric)
        }
    } else {
        Ok(())
    }
}

#[verifier::rlimit(30)]
#[verifier::spinoff_prover]
fn read_row_fields(r: &mut Reader, f: &Vec<Vec<u8>>, Ghost(fv): Ghost<Seq<Seq<u8>>>) -> (res: Result<
    (),
    ParseError,
>)
    requires
        f@.len() == fv.len(),
        forall|k: int| 0 <= k < fv.len() ==> (#[trigger] f@[k])@ == fv[k],
    ensures
        stepped(res, read_row(doc_of(*old(r)), fv), doc_of(*final(r))),
{
    let ghost d = doc_of(*r);
    match r.section {
        Section::Coord => {
            if f.len() >= 3 {
                let x = to_vec(f[1].as_slice());
                let y = to_vec(f[2].as_slice());
                r.coords.push((x, y));
                proof {
                    assert(doc_of(*r).coords =~= d.coords.push((fv[1], fv[2])));
                }
                Ok(())
            } else {
                Err(ParseError::ShortRow)
            }
        },
        Section::Demand => {
            if f.len() >= 2 {
                match read_i64(f[1].as_slice()) {
                    Some(v) => {
                        r.demands.push(v);
                        proof {
                            assert(doc_of(*r).demands =~= d.demands.push(v as int));
                        }
                        Ok(())
                    },
                    None => Err(ParseError::BadNumber),
                }
            } else {
                Err(ParseError::ShortRow)
            }
        },
        Section::Window => {
            if f.len() >= 3 {
                match (read_time(f[1].as_slice()), read_time(f[2].as_slice())) {
                    (Some(a), Some(b)) => {
                        r.windows.push((a, b));
                        proof {
                            assert(doc_of(*r).windows =~= d.windows.push((a as int, b as int)));
                        }
                        Ok(())
                    },
                    _ => Err(ParseError::BadNumber),
                }
            } else {
                Err(ParseError::ShortRow)
            }
        },
        Section::Depot => {
            if f.len() >= 1 {
                match read_i64(f[0].as_slice()) {
                    Some(v) => {
                        if v >= 0 && r.depot.is_none() {
                            r.depot = Some(v);
                        }
                        Ok(())
                    },
                    None => Err(ParseError::BadNumber),
                }
            } else {
                Err(ParseError::ShortRow)
            }
        },
        Section::Other => Ok(()),
    }
}


fn section_kind(tw: bool, t: &[u8]) -> (r: Section)
    ensures
        r == section_of(tw, t@),
{
    let coord: [u8; 18] = [78u8, 79, 68, 69, 95, 67, 79, 79, 82, 68, 95, 83, 69, 67, 84, 73, 79, 78];
    let demand: [u8; 14] = [68u8, 69, 77, 65, 78, 68, 95, 83, 69, 67, 84, 73, 79, 78];
    let window: [u8; 19] = [84u8, 73, 77, 69, 95, 87, 73, 78, 68, 79, 87, 95, 83, 69, 67, 84, 73, 79, 78];
    let depot: [u8; 13] = [68u8, 69, 80, 79, 84, 95, 83, 69, 67, 84, 73, 79, 78];
    proof {
        assert(coord@ == kw_coord_section());
        assert(demand@ == kw_demand_section());
        assert(window@ == kw_window_section());
        assert(depot@ == kw_depot_section());
    }
    if same_bytes(t, &coord) {
        Section::Coord
    } else if same_bytes(t, &demand) {
        Section::Demand
    } else if tw && same_bytes(t, &window) {
        Section::Window
    } else if same_bytes(t, &depot) {
        Section::Depot
    } else {
        Section::Other
    }
}

#[verifier::rlimit(30)]
#[verifier::spinoff_prover]
fn read_one_line(tw: bool, r: &mut Reader, line: &[u8]) -> (res: Result<(), ParseError>)
    ensures
        stepped(res, read_line(tw, doc_of(*old(r)), trim(line@)), doc_of(*final(r))),
{
    let eof: [u8; 3] = [69u8, 79, 70];
    let section: [u8; 8] = [95u8, 83, 69, 67, 84, 73, 79, 78];
    proof {
        assert(eof@ == kw_eof());
        assert(section@ == kw_section());
    }
    proof {
        reveal(read_line);
    }
    let t = trimmed(line);
    if t.len() == 0 || same_bytes(t.as_slice(), &eof) {
        return Ok(());
    }
    match find_colon(t.as_slice()) {
        Some(p) => {
            let key = trimmed(sub_bytes(t.as_slice(), 0, p).as_slice());
            let value = trimmed(sub_bytes(t.as_slice(), p + 1, t.len()).as_slice());
            read_header_line(tw, r, key.as_slice(), value.as_slice())
        },
        None => {
            if ends_with_bytes(t.as_slice(), &section) {
                r.section = section_kind(tw, t.as_slice());
                Ok(())
            } else {
                let f = split_words(t.as_slice());
                read_row_fields(r, &f, Ghost(words(t@)))
            }
        },
    }
}

/// An instance file read in full.
pub struct RawInstance {
    pub name: Vec<u8>,
    pub capacity: i64,
    /// Scaled by `SCALE`; zero outside a VRPTW file.
    pub service_time: i64,
    /// The coordinate fields of each node, as written.
    pub coords: Vec<(Vec<u8>, Vec<u8>)>,
    pub demands: Vec<i64>,
    /// Scaled `(ready, due)` per node; empty outside a VRPTW file.
    pub windows: Vec<(i64, i64)>,
    pub depot: NodeId,
}

/// `x` holds what the file read into `d` says.
pub open spec fn holds(x: RawInstance, d: Doc) -> bool {
    &&& x.name@ == d.name
    &&& x.capacity as int == d.capacity
    &&& x.service_time as int == d.service
    &&& x.coords@.map_values(|c: (Vec<u8>, Vec<u8>)| (c.0@, c.1@)) == d.coords
    &&& x.demands@.map_values(|v: i64| v as int) == d.demands
    &&& x.windows@.map_values(|w: (i64, i64)| (w.0 as int, w.1 as int)) == d.windows
    &&& d.depot matches Some(id) && x.depot.0 as int == id - 1
}

/// Reads an instance file: the VRPTW fields too when `tw`.
fn read_file(text: &[u8], tw: bool) -> (r: Result<RawInstance, ParseError>)
    ensures
        r matches Ok(x) ==> read_instance(tw, text@) matches Ok(d) && holds(x, d),
        r matches Err(e) ==> read_instance(tw, text@) == Err::<Doc, ParseError>(e),
{
    let ls = split_lines(text);
    let ghost all = lines(text@);
    let mut rd = Reader {
        name: Vec::new(),
        dimension: 0,
        capacity: 0,
        service: 0,
        coords: Vec::new(),
        demands: Vec::new(),
        windows: Vec::new(),
        depot: None,
        section: Section::Other,
    };
    proof {
        assert(doc_of(rd).coords =~= Seq::<(Seq<u8>, Seq<u8>)>::empty());
        assert(doc_of(rd).demands =~= Seq::<int>::empty());
        assert(doc_of(rd).windows =~= Seq::<(int, int)>::empty());
        assert(doc_of(rd) == empty_doc());
        assert(all.take(0) =~= Seq::<Seq<u8>>::empty());
    }
    let mut i: usize = 0;
    while i < ls.len()
        invariant
            all == lines(text@),
            ls@.len() == all.len(),
            forall|k: int| 0 <= k < all.len() ==> (#[trigger] ls@[k])@ == all[k],
            i <= all.len(),
            read_lines(tw, all.take(i as int)) == Ok::<Doc, ParseError>(doc_of(rd)),
        decreases all.len() - i,
    {
        let ghost before = doc_of(rd);
        let res = read_one_line(tw, &mut rd, ls[i].as_slice());
        proof {
            lemma_read_next(tw, all, i as int, before, res, doc_of(rd));
        }
        match res {
            Ok(()) => {},
            Err(e) => {
                proof {
                    lemma_read_stops(tw, all, (i + 1) as nat, e);
                }
                return Err(e);
            },
        }
        i += 1;
    }
    proof {
        assert(all.take(all.len() as int) =~= all);
    }
    let ghost d = doc_of(rd);
    if rd.coords.len() != rd.dimension {
        return Err(ParseError::CoordCount);
    }
    if !tw && rd.demands.len() != rd.dimension {
        return Err(ParseError::DemandCount);
    }
    if tw && rd.windows.len() != rd.dimension {
        return Err(ParseError::WindowCount);
    }
    match rd.depot {
        None => Err(ParseError::NoDepot),
        Some(id) => {
            if id < 1 || id > u32::MAX as i64 || (id - 1) as u64 >= rd.demands.len() as u64 {
                return Err(ParseError::BadDepot);
            }
            let at = (id - 1) as usize;
            if rd.demands[at] != 0 {
                return Err(ParseError::DepotHasDemand);
            }
            Ok(
                RawInstance {
                    name: rd.name,
                    capacity: rd.capacity,
                    service_time: rd.service,
                    coords: rd.coords,
                    demands: rd.demands,
                    windows: rd.windows,
                    depot: NodeId(at as u32),
                },
            )
        },
    }
}

/// Reading one more line extends the reading of the lines before it.
proof fn lemma_read_next(
    tw: bool,
    all: Seq<Seq<u8>>,
    i: int,
    before: Doc,
    res: Result<(), ParseError>,
    after: Doc,
)
    requires
        0 <= i < all.len(),
        read_lines(tw, all.take(i)) == Ok::<Doc, ParseError>(before),
        stepped(res, read_line(tw, before, trim(all[i])), after),
    ensures
        res is Ok ==> read_lines(tw, all.take(i + 1)) == Ok::<Doc, ParseError>(after),
        res matches Err(e) ==> read_lines(tw, all.take(i + 1)) == Err::<Doc, ParseError>(e),
{
    let t = all.take(i + 1);
    assert(t.drop_last() =~= all.take(i));
    assert(t.last() == all[i]);
}

/// Once a line fails, reading more lines fails the same way.
proof fn lemma_read_stops(tw: bool, all: Seq<Seq<u8>>, k: nat, e: ParseError)
    requires
        k <= all.len(),
        read_lines(tw, all.take(k as int)) == Err::<Doc, ParseError>(e),
    ensures
        read_lines(tw, all) == Err::<Doc, ParseError>(e),
    decreases all.len() - k,
{
    if k < all.len() {
        let t = all.take(k + 1 as int);
        assert(t.drop_last() =~= all.take(k as int));
        lemma_read_stops(tw, all, k + 1, e);
    } else {
        assert(all.take(k as int) =~= all);
    }
}

/// A placeholder instance, for paths the contracts rule out.
fn no_instance() -> RawInstance {
    RawInstance {
        name: Vec::new(),
        capacity: 0,
        service_time: 0,
        coords: Vec::new(),
        demands: Vec::new(),
        windows: Vec::new(),
        depot: NodeId(0),
    }
}

/// A CVRP instance file: header, coordinates, demands, depot. The text must
/// be a well-formed file (`check_cvrp` tells).
pub fn read_cvrp(text: &[u8]) -> (r: RawInstance)
    requires
        read_instance(false, text@) is Ok,
    ensures
        holds(r, read_instance(false, text@)->Ok_0),
{
    match read_file(text, false) {
        Ok(x) => x,
        Err(_) => {
            proof {
                assert(false);
            }
            no_instance()
        },
    }
}

/// Whether `text` is a well-formed CVRP file, and if not, the first fault.
pub fn check_cvrp(text: &[u8]) -> (r: Result<(), ParseError>)
    ensures
        r is Ok <==> read_instance(false, text@) is Ok,
        r matches Err(e) ==> read_instance(false, text@) == Err::<Doc, ParseError>(e),
{
    match read_file(text, false) {
        Ok(_) => Ok(()),
        Err(e) => Err(e),
    }
}

/// A VRPTW instance file: a CVRP file with a service time and a time
/// window per node, times scaled by `SCALE`. The text must be a
/// well-formed file (`check_vrptw` tells).
pub fn read_vrptw(text: &[u8]) -> (r: RawInstance)
    requires
        read_instance(true, text@) is Ok,
    ensures
        holds(r, read_instance(true, text@)->Ok_0),
{
    match read_file(text, true) {
        Ok(x) => x,
        Err(_) => {
            proof {
                assert(false);
            }
            no_instance()
        },
    }
}

/// Whether `text` is a well-formed VRPTW file, and if not, the first fault.
pub fn check_vrptw(text: &[u8]) -> (r: Result<(), ParseError>)
    ensures
        r is Ok <==> read_instance(true, text@) is Ok,
        r matches Err(e) ==> read_instance(true, text@) == Err::<Doc, ParseError>(e),
{
    match read_file(text, true) {
        Ok(_) => Ok(()),
        Err(e) => Err(e),
    }
}

/// The stops a `Route` line lists: each word a node number that fits a
/// `u32`, or `None` if one does not.
pub open spec fn stops_of(f: Seq<Seq<u8>>) -> Option<Seq<NodeId>>
    decreases f.len(),
{
    if f.len() == 0 {
        Some(Seq::empty())
    } else {
        match (stops_of(f.drop_last()), int_of(f.last(), false, 0, u32::MAX as int)) {
            (Some(r), Some(v)) => Some(r.push(NodeId(v as u32))),
            _ => None,
        }
    }
}

/// A solution file read so far: its routes, and the text of each `Cost`
/// line's value.
pub struct SolDoc {
    pub routes: Seq<Seq<NodeId>>,
    pub costs: Seq<Seq<u8>>,
}

/// One trimmed line of a solution file: `Route ...: stops`, `Cost value`,
/// or anything else, which is skipped.
#[verifier::opaque]
pub open spec fn read_sol_line(d: SolDoc, t: Seq<u8>) -> Result<SolDoc, ParseError> {
    if starts_with(t, kw_route()) {
        let rest = t.subrange(5, t.len() as int);
        match colon_at(rest) {
            None => Err(ParseError::MalformedRoute),
            Some(p) => match stops_of(words(rest.subrange(p + 1, rest.len() as int))) {
                Some(r) => Ok(SolDoc { routes: d.routes.push(r), ..d }),
                None => Err(ParseError::BadNumber),
            },
        }
    } else if starts_with(t, kw_cost()) {
        Ok(SolDoc { costs: d.costs.push(trim(t.subrange(4, t.len() as int))), ..d })
    } else {
        Ok(d)
    }
}

/// The lines `ls` of a solution file read in order.
pub open spec fn read_sol_lines(ls: Seq<Seq<u8>>) -> Result<SolDoc, ParseError>
    decreases ls.len(),
{
    if ls.len() == 0 {
        Ok(SolDoc { routes: Seq::empty(), costs: Seq::empty() })
    } else {
        match read_sol_lines(ls.drop_last()) {
            Ok(d) => read_sol_line(d, trim(ls.last())),
            Err(e) => Err(e),
        }
    }
}

/// A solution file read in full.
pub struct RawSol {
    pub routes: Vec<Vec<NodeId>>,
    /// The value of each `Cost` line, as written.
    pub costs: Vec<Vec<u8>>,
}

/// What `x` holds, as contents.
pub open spec fn sol_doc_of(x: RawSol) -> SolDoc {
    SolDoc {
        routes: x.routes@.map_values(|r: Vec<NodeId>| r@),
        costs: x.costs@.map_values(|c: Vec<u8>| c@),
    }
}

fn read_stops(f: &Vec<Vec<u8>>, Ghost(fv): Ghost<Seq<Seq<u8>>>) -> (r: Option<Vec<NodeId>>)
    requires
        f@.len() == fv.len(),
        forall|k: int| 0 <= k < fv.len() ==> (#[trigger] f@[k])@ == fv[k],
    ensures
        r matches Some(v) ==> stops_of(fv) == Some(v@),
        r is None ==> stops_of(fv) is None,
{
    let mut out: Vec<NodeId> = Vec::new();
    let mut i: usize = 0;
    while i < f.len()
        invariant
            f@.len() == fv.len(),
            forall|k: int| 0 <= k < fv.len() ==> (#[trigger] f@[k])@ == fv[k],
            i <= fv.len(),
            stops_of(fv.take(i as int)) == Some(out@),
        decreases fv.len() - i,
    {
        proof {
            let t = fv.take(i + 1);
            assert(t.drop_last() =~= fv.take(i as int));
            assert(t.last() == f@[i as int]@);
        }
        match parse_int(f[i].as_slice(), false, 0, u32::MAX as i128) {
            Some(v) => {
                out.push(NodeId(v as u32));
            },
            None => {
                proof {
                    lemma_stops_stop(fv, (i + 1) as nat);
                }
                return None;
            },
        }
        i += 1;
    }
    proof {
        assert(fv.take(fv.len() as int) =~= fv);
    }
    Some(out)
}

/// A stop that fails to read fails the whole route.
proof fn lemma_stops_stop(fv: Seq<Seq<u8>>, k: nat)
    requires
        k <= fv.len(),
        stops_of(fv.take(k as int)) is None,
    ensures
        stops_of(fv) is None,
    decreases fv.len() - k,
{
    if k < fv.len() {
        let t = fv.take(k + 1 as int);
        assert(t.drop_last() =~= fv.take(k as int));
        lemma_stops_stop(fv, k + 1);
    } else {
        assert(fv.take(k as int) =~= fv);
    }
}

#[verifier::rlimit(30)]
#[verifier::spinoff_prover]
fn read_sol_one(sol: &mut RawSol, line: &[u8]) -> (res: Result<(), ParseError>)
    ensures
        match res {
            Ok(_) => read_sol_line(sol_doc_of(*old(sol)), trim(line@)) == Ok::<SolDoc, ParseError>(
                sol_doc_of(*final(sol)),
            ),
            Err(e) => read_sol_line(sol_doc_of(*old(sol)), trim(line@)) == Err::<SolDoc, ParseError>(e),
        },
{
    proof {
        reveal(read_sol_line);
    }
    let route: [u8; 5] = [82u8, 111, 117, 116, 101];
    let cost: [u8; 4] = [67u8, 111, 115, 116];
    proof {
        assert(route@ == kw_route());
        assert(cost@ == kw_cost());
    }
    let ghost d = sol_doc_of(*sol);
    let t = trimmed(line);
    if starts_with_bytes(t.as_slice(), &route) {
        let rest = sub_bytes(t.as_slice(), 5, t.len());
        match find_colon(rest.as_slice()) {
            None => Err(ParseError::MalformedRoute),
            Some(p) => {
                let tail = sub_bytes(rest.as_slice(), p + 1, rest.len());
                let f = split_words(tail.as_slice());
                match read_stops(&f, Ghost(words(tail@))) {
                    Some(r) => {
                        sol.routes.push(r);
                        proof {
                            assert(sol_doc_of(*sol).routes =~= d.routes.push(r@));
                            assert(sol_doc_of(*sol).costs =~= d.costs);
                        }
                        Ok(())
                    },
                    None => Err(ParseError::BadNumber),
                }
            },
        }
    } else if starts_with_bytes(t.as_slice(), &cost) {
        let v = trimmed(sub_bytes(t.as_slice(), 4, t.len()).as_slice());
        sol.costs.push(v);
        proof {
            assert(sol_doc_of(*sol).costs =~= d.costs.push(v@));
            assert(sol_doc_of(*sol).routes =~= d.routes);
        }
        Ok(())
    } else {
        Ok(())
    }
}

/// Reads a solution file: its `Route` lines and `Cost` lines. The text
/// must be a well-formed solution file (`check_sol` tells).
pub fn read_sol(text: &[u8]) -> (r: RawSol)
    requires
        read_sol_lines(lines(text@)) is Ok,
    ensures
        read_sol_lines(lines(text@)) == Ok::<SolDoc, ParseError>(sol_doc_of(r)),
{
    match sol_file(text) {
        Ok(x) => x,
        Err(_) => {
            proof {
                assert(false);
            }
            RawSol { routes: Vec::new(), costs: Vec::new() }
        },
    }
}

/// Whether `text` is a well-formed solution file, and if not, the first
/// fault.
pub fn check_sol(text: &[u8]) -> (r: Result<(), ParseError>)
    ensures
        r is Ok <==> read_sol_lines(lines(text@)) is Ok,
        r matches Err(e) ==> read_sol_lines(lines(text@)) == Err::<SolDoc, ParseError>(e),
{
    match sol_file(text) {
        Ok(_) => Ok(()),
        Err(e) => Err(e),
    }
}

/// A solution file read line by line, or its first fault.
fn sol_file(text: &[u8]) -> (r: Result<RawSol, ParseError>)
    ensures
        r matches Ok(x) ==> read_sol_lines(lines(text@)) == Ok::<SolDoc, ParseError>(sol_doc_of(x)),
        r matches Err(e) ==> read_sol_lines(lines(text@)) == Err::<SolDoc, ParseError>(e),
{
    let ls = split_lines(text);
    let ghost all = lines(text@);
    let mut sol = RawSol { routes: Vec::new(), costs: Vec::new() };
    proof {
        assert(sol_doc_of(sol).routes =~= Seq::<Seq<NodeId>>::empty());
        assert(sol_doc_of(sol).costs =~= Seq::<Seq<u8>>::empty());
        assert(all.take(0) =~= Seq::<Seq<u8>>::empty());
    }
    let mut i: usize = 0;
    while i < ls.len()
        invariant
            all == lines(text@),
            ls@.len() == all.len(),
            forall|k: int| 0 <= k < all.len() ==> (#[trigger] ls@[k])@ == all[k],
            i <= all.len(),
            read_sol_lines(all.take(i as int)) == Ok::<SolDoc, ParseError>(sol_doc_of(sol)),
        decreases all.len() - i,
    {
        let res = read_sol_one(&mut sol, ls[i].as_slice());
        proof {
            let t = all.take(i + 1);
            assert(t.drop_last() =~= all.take(i as int));
            assert(t.last() == all[i as int]);
        }
        match res {
            Ok(()) => {},
            Err(e) => {
                proof {
                    lemma_sol_stops(all, (i + 1) as nat, e);
                }
                return Err(e);
            },
        }
        i += 1;
    }
    proof {
        assert(all.take(all.len() as int) =~= all);
    }
    Ok(sol)
}

/// Once a solution line fails, the whole file fails the same way.
proof fn lemma_sol_stops(all: Seq<Seq<u8>>, k: nat, e: ParseError)
    requires
        k <= all.len(),
        read_sol_lines(all.take(k as int)) == Err::<SolDoc, ParseError>(e),
    ensures
        read_sol_lines(all) == Err::<SolDoc, ParseError>(e),
    decreases all.len() - k,
{
    if k < all.len() {
        let t = all.take(k + 1 as int);
        assert(t.drop_last() =~= all.take(k as int));
        lemma_sol_stops(all, k + 1, e);
    } else {
        assert(all.take(k as int) =~= all);
    }
}
/// The value of a header line `key : value` whose key is `key`, both sides
/// trimmed and split at the line's first `:`.
pub open spec fn header_value(line: Seq<u8>, key: Seq<u8>) -> Option<Seq<u8>> {
    let t = trim(line);
    match colon_at(t) {
        Some(p) => if trim(t.subrange(0, p)) == key {
            Some(trim(t.subrange(p + 1, t.len() as int)))
        } else {
            None
        },
        None => None,
    }
}

/// The value of the last header line of `ls` whose key is `key`.
pub open spec fn last_header(ls: Seq<Seq<u8>>, key: Seq<u8>) -> Option<Seq<u8>>
    decreases ls.len(),
{
    if ls.len() == 0 {
        None
    } else {
        match header_value(ls.last(), key) {
            Some(v) => Some(v),
            None => last_header(ls.drop_last(), key),
        }
    }
}

/// A header line sets the capacity only under the `CAPACITY` key, and the
/// service time only under `SERVICE_TIME` in a VRPTW file.
proof fn lemma_header_fields(tw: bool, d: Doc, key: Seq<u8>, value: Seq<u8>)
    requires
        read_header(tw, d, key, value) is Ok,
    ensures
        ({
            let d2 = read_header(tw, d, key, value)->Ok_0;
            &&& key == kw_capacity() ==> int_of(value, true, i64::MIN as int, i64::MAX as int) == Some(
                d2.capacity,
            )
            &&& key != kw_capacity() ==> d2.capacity == d.capacity
            &&& key == kw_service_time() && tw ==> (int_of(value, true, i64::MIN as int, i64::MAX as int) matches Some(n)
                && d2.service == n * SCALE)
            &&& !(key == kw_service_time() && tw) ==> d2.service == d.service
        }),
{
    assert(kw_capacity() != kw_service_time()) by {
        assert(kw_capacity()[0] != kw_service_time()[0]);
    }
}

/// A row leaves the capacity and the service time as they were.
proof fn lemma_row_fields(d: Doc, f: Seq<Seq<u8>>)
    requires
        read_row(d, f) is Ok,
    ensures
        read_row(d, f)->Ok_0.capacity == d.capacity,
        read_row(d, f)->Ok_0.service == d.service,
{
}

/// One line read: a `CAPACITY` line sets the capacity to what its value
/// spells, a `SERVICE_TIME` line in a VRPTW file sets the service time to
/// what its value spells times `SCALE`, and every other line leaves both.
#[verifier::spinoff_prover]
#[verifier::rlimit(40)]
proof fn lemma_line_headers(tw: bool, d: Doc, line: Seq<u8>)
    requires
        read_line(tw, d, trim(line)) is Ok,
    ensures
        ({
            let d2 = read_line(tw, d, trim(line))->Ok_0;
            &&& match header_value(line, kw_capacity()) {
                Some(v) => int_of(v, true, i64::MIN as int, i64::MAX as int) == Some(d2.capacity),
                None => d2.capacity == d.capacity,
            }
            &&& match header_value(line, kw_service_time()) {
                Some(v) => tw ==> (int_of(v, true, i64::MIN as int, i64::MAX as int) matches Some(n)
                    && d2.service == n * SCALE),
                None => d2.service == d.service,
            }
            &&& !tw ==> d2.service == d.service
        }),
{
    reveal(read_line);
    let t = trim(line);
    if t.len() == 0 {
    } else if t == kw_eof() {
        assert(colon_at(t) is None) by {
            assert forall|p: int| 0 <= p < t.len() implies t[p] != 58 by {}
        }
    } else {
        match colon_at(t) {
            Some(p) => {
                lemma_header_fields(tw, d, trim(t.subrange(0, p)), trim(t.subrange(p + 1, t.len() as int)));
            },
            None => {
                if !ends_with(t, kw_section()) {
                    lemma_row_fields(d, words(t));
                }
            },
        }
    }
}

/// Read line by line, the capacity is what the last `CAPACITY` line spells,
/// as is, and the service time what the last `SERVICE_TIME` line spells,
/// times `SCALE`, in a VRPTW file only.
proof fn lemma_headers_read(tw: bool, ls: Seq<Seq<u8>>)
    requires
        read_lines(tw, ls) is Ok,
    ensures
        ({
            let d = read_lines(tw, ls)->Ok_0;
            &&& match last_header(ls, kw_capacity()) {
                Some(v) => int_of(v, true, i64::MIN as int, i64::MAX as int) == Some(d.capacity),
                None => d.capacity == 0,
            }
            &&& match last_header(ls, kw_service_time()) {
                Some(v) => tw ==> (int_of(v, true, i64::MIN as int, i64::MAX as int) matches Some(n)
                    && d.service == n * SCALE),
                None => d.service == 0,
            }
            &&& !tw ==> d.service == 0
        }),
    decreases ls.len(),
{
    if ls.len() > 0 {
        lemma_headers_read(tw, ls.drop_last());
        let d0 = read_lines(tw, ls.drop_last())->Ok_0;
        lemma_line_headers(tw, d0, ls.last());
    }
}

/// The capacity a CVRP or VRPTW file declares is the integer spelled by the
/// value of its last `CAPACITY` header line, taken as written: only times
/// are scaled by `SCALE`, never the capacity. A file without one has
/// capacity 0. The instance read from a well-formed file carries it.
pub proof fn lemma_capacity_as_written(tw: bool, text: Seq<u8>, x: RawInstance)
    requires
        read_instance(tw, text) is Ok,
        holds(x, read_instance(tw, text)->Ok_0),
    ensures
        match last_header(lines(text), kw_capacity()) {
            Some(v) => int_of(v, true, i64::MIN as int, i64::MAX as int) == Some(x.capacity as int),
            None => x.capacity == 0,
        },
{
    lemma_headers_read(tw, lines(text));
}

/// The service time of a VRPTW file is the integer spelled by the value of
/// its last `SERVICE_TIME` header line times `SCALE` (0 without one); a
/// CVRP file has none.
pub proof fn lemma_service_time_scaled(tw: bool, text: Seq<u8>, x: RawInstance)
    requires
        read_instance(tw, text) is Ok,
        holds(x, read_instance(tw, text)->Ok_0),
    ensures
        !tw ==> x.service_time == 0,
        tw ==> match last_header(lines(text), kw_service_time()) {
            Some(v) => (int_of(v, true, i64::MIN as int, i64::MAX as int) matches Some(n)
                && x.service_time == n * SCALE),
            None => x.service_time == 0,
        },
{
    lemma_headers_read(tw, lines(text));
}

/// A trimmed line `t` that opens a section.
pub open spec fn opens_section(t: Seq<u8>) -> bool {
    t.len() > 0 && t != kw_eof() && colon_at(t) is None && ends_with(t, kw_section())
}

/// A trimmed line `t` that is a row of the section it stands in.
pub open spec fn is_row(t: Seq<u8>) -> bool {
    t.len() > 0 && t != kw_eof() && colon_at(t) is None && !ends_with(t, kw_section())
}

/// The section the lines `ls` leave open: the one the last section line
/// names.
pub open spec fn section_after(tw: bool, ls: Seq<Seq<u8>>) -> Section
    decreases ls.len(),
{
    if ls.len() == 0 {
        Section::Other
    } else if opens_section(trim(ls.last())) {
        section_of(tw, trim(ls.last()))
    } else {
        section_after(tw, ls.drop_last())
    }
}

/// The rows of section `sec` among the lines `ls`, each split into its
/// fields, in file order.
pub open spec fn rows_in(tw: bool, ls: Seq<Seq<u8>>, sec: Section) -> Seq<Seq<Seq<u8>>>
    decreases ls.len(),
{
    if ls.len() == 0 {
        Seq::empty()
    } else {
        let prev = rows_in(tw, ls.drop_last(), sec);
        let t = trim(ls.last());
        if is_row(t) && section_after(tw, ls.drop_last()) == sec {
            prev.push(words(t))
        } else {
            prev
        }
    }
}

/// What the section rows `coord`, `demand` and `window` say the document
/// holds: each coordinate row's second and third fields as written, each
/// demand row's second field as the integer it spells, and each window
/// row's second and third fields as the integers they spell times `SCALE`.
pub open spec fn rows_hold(d: Doc, coord: Seq<Seq<Seq<u8>>>, demand: Seq<Seq<Seq<u8>>>, window: Seq<
    Seq<Seq<u8>>,
>) -> bool {
    &&& d.coords.len() == coord.len()
    &&& forall|i: int| 0 <= i < coord.len() ==> #[trigger] d.coords[i] == (coord[i][1], coord[i][2])
    &&& d.demands.len() == demand.len()
    &&& forall|i: int|
        0 <= i < demand.len() ==> int_of(#[trigger] demand[i][1], true, i64::MIN as int, i64::MAX as int)
            == Some(d.demands[i])
    &&& d.windows.len() == window.len()
    &&& forall|i: int|
        0 <= i < window.len() ==> (int_of(#[trigger] window[i][1], true, i64::MIN as int, i64::MAX as int) matches Some(
            a,
        ) && d.windows[i].0 == a * SCALE) && (int_of(window[i][2], true, i64::MIN as int, i64::MAX as int) matches Some(
            b,
        ) && d.windows[i].1 == b * SCALE)
}

/// A row read into the section that is open.
proof fn lemma_row_read(d: Doc, f: Seq<Seq<u8>>)
    requires
        read_row(d, f) is Ok,
    ensures
        ({
            let d2 = read_row(d, f)->Ok_0;
            &&& d2.section == d.section
            &&& d.section == Section::Coord ==> d2.coords == d.coords.push((f[1], f[2]))
            &&& d.section != Section::Coord ==> d2.coords == d.coords
            &&& d.section == Section::Demand ==> d2.demands.len() == d.demands.len() + 1 && d2.demands.drop_last()
                == d.demands && int_of(f[1], true, i64::MIN as int, i64::MAX as int) == Some(d2.demands.last())
            &&& d.section != Section::Demand ==> d2.demands == d.demands
            &&& d.section == Section::Window ==> d2.windows.len() == d.windows.len() + 1 && d2.windows.drop_last()
                == d.windows && (int_of(f[1], true, i64::MIN as int, i64::MAX as int) matches Some(a)
                && d2.windows.last().0 == a * SCALE) && (int_of(f[2], true, i64::MIN as int, i64::MAX as int) matches Some(
                b,
            ) && d2.windows.last().1 == b * SCALE)
            &&& d.section != Section::Window ==> d2.windows == d.windows
        }),
{
    if d.section == Section::Demand {
        assert(read_row(d, f)->Ok_0.demands.drop_last() =~= d.demands);
    }
    if d.section == Section::Window {
        assert(read_row(d, f)->Ok_0.windows.drop_last() =~= d.windows);
    }
}

/// A header line leaves the section and the rows as they were.
proof fn lemma_header_keeps_rows(tw: bool, d: Doc, key: Seq<u8>, value: Seq<u8>)
    requires
        read_header(tw, d, key, value) is Ok,
    ensures
        read_header(tw, d, key, value)->Ok_0.section == d.section,
        read_header(tw, d, key, value)->Ok_0.coords == d.coords,
        read_header(tw, d, key, value)->Ok_0.demands == d.demands,
        read_header(tw, d, key, value)->Ok_0.windows == d.windows,
{
}

/// One line read: a section line opens its section, a row lands in the
/// open one, and nothing else touches the section or the rows.
#[verifier::spinoff_prover]
#[verifier::rlimit(40)]
proof fn lemma_line_rows(tw: bool, d: Doc, line: Seq<u8>)
    requires
        read_line(tw, d, trim(line)) is Ok,
    ensures
        ({
            let t = trim(line);
            let d2 = read_line(tw, d, t)->Ok_0;
            &&& opens_section(t) ==> d2.section == section_of(tw, t) && d2.coords == d.coords && d2.demands
                == d.demands && d2.windows == d.windows
            &&& is_row(t) ==> {
                let f = words(t);
                &&& d2.section == d.section
                &&& d.section == Section::Coord ==> d2.coords == d.coords.push((f[1], f[2]))
                &&& d.section != Section::Coord ==> d2.coords == d.coords
                &&& d.section == Section::Demand ==> d2.demands.len() == d.demands.len() + 1
                    && d2.demands.drop_last() == d.demands && int_of(f[1], true, i64::MIN as int, i64::MAX as int)
                    == Some(d2.demands.last())
                &&& d.section != Section::Demand ==> d2.demands == d.demands
                &&& d.section == Section::Window ==> d2.windows.len() == d.windows.len() + 1
                    && d2.windows.drop_last() == d.windows && (int_of(f[1], true, i64::MIN as int, i64::MAX as int) matches Some(
                    a,
                ) && d2.windows.last().0 == a * SCALE) && (int_of(f[2], true, i64::MIN as int, i64::MAX as int) matches Some(
                    b,
                ) && d2.windows.last().1 == b * SCALE)
                &&& d.section != Section::Window ==> d2.windows == d.windows
            }
            &&& !opens_section(t) && !is_row(t) ==> d2.section == d.section && d2.coords == d.coords
                && d2.demands == d.demands && d2.windows == d.windows
        }),
{
    reveal(read_line);
    let t = trim(line);
    if t.len() == 0 || t == kw_eof() {
    } else {
        match colon_at(t) {
            Some(p) => {
                lemma_header_keeps_rows(tw, d, trim(t.subrange(0, p)), trim(t.subrange(p + 1, t.len() as int)));
            },
            None => {
                if !ends_with(t, kw_section()) {
                    lemma_row_read(d, words(t));
                }
            },
        }
    }
}

/// Read line by line, the open section is the last one named, and the
/// coordinates, demands and windows are what the rows of their sections
/// say.
proof fn lemma_rows_read(tw: bool, ls: Seq<Seq<u8>>)
    requires
        read_lines(tw, ls) is Ok,
    ensures
        read_lines(tw, ls)->Ok_0.section == section_after(tw, ls),
        rows_hold(
            read_lines(tw, ls)->Ok_0,
            rows_in(tw, ls, Section::Coord),
            rows_in(tw, ls, Section::Demand),
            rows_in(tw, ls, Section::Window),
        ),
    decreases ls.len(),
{
    if ls.len() > 0 {
        let ls0 = ls.drop_last();
        lemma_rows_read(tw, ls0);
        let d0 = read_lines(tw, ls0)->Ok_0;
        let d = read_lines(tw, ls)->Ok_0;
        lemma_line_rows(tw, d0, ls.last());
        let c0 = rows_in(tw, ls0, Section::Coord);
        let m0 = rows_in(tw, ls0, Section::Demand);
        let w0 = rows_in(tw, ls0, Section::Window);
        let c = rows_in(tw, ls, Section::Coord);
        let m = rows_in(tw, ls, Section::Demand);
        let w = rows_in(tw, ls, Section::Window);
        assert forall|i: int| 0 <= i < c.len() implies #[trigger] d.coords[i] == (c[i][1], c[i][2]) by {
            if i < c0.len() {
                assert(c[i] == c0[i]);
                assert(d0.coords[i] == (c0[i][1], c0[i][2]));
            }
        }
        assert forall|i: int| 0 <= i < m.len() implies int_of(#[trigger] m[i][1], true, i64::MIN as int, i64::MAX as int)
            == Some(d.demands[i]) by {
            if i < m0.len() {
                assert(m[i] == m0[i]);
                assert(d.demands[i] == d0.demands[i]) by {
                    if d0.section == Section::Demand && is_row(trim(ls.last())) {
                        assert(d.demands.drop_last()[i] == d.demands[i]);
                    }
                }
                assert(int_of(m0[i][1], true, i64::MIN as int, i64::MAX as int) == Some(d0.demands[i]));
            }
        }
        assert forall|i: int| 0 <= i < w.len() implies (int_of(#[trigger] w[i][1], true, i64::MIN as int, i64::MAX as int) matches Some(
            a,
        ) && d.windows[i].0 == a * SCALE) && (int_of(w[i][2], true, i64::MIN as int, i64::MAX as int) matches Some(
            b,
        ) && d.windows[i].1 == b * SCALE) by {
            if i < w0.len() {
                assert(w[i] == w0[i]);
                assert(d.windows[i] == d0.windows[i]) by {
                    if d0.section == Section::Window && is_row(trim(ls.last())) {
                        assert(d.windows.drop_last()[i] == d.windows[i]);
                    }
                }
                assert(int_of(w0[i][1], true, i64::MIN as int, i64::MAX as int) matches Some(a) && d0.windows[i].0
                    == a * SCALE);
            }
        }
    }
}

/// The rows of a CVRP or VRPTW file become the instance as written: node
/// `i`'s coordinate fields are the second and third fields of the `i`-th
/// row of `NODE_COORD_SECTION`, its demand the integer the second field of
/// the `i`-th row of `DEMAND_SECTION` spells, unscaled, and in a VRPTW file
/// its window the integers the second and third fields of the `i`-th row
/// of `TIME_WINDOW_SECTION` spell, each times `SCALE`.
pub proof fn lemma_rows_as_written(tw: bool, text: Seq<u8>, x: RawInstance)
    requires
        read_instance(tw, text) is Ok,
        holds(x, read_instance(tw, text)->Ok_0),
    ensures
        rows_hold(
            read_instance(tw, text)->Ok_0,
            rows_in(tw, lines(text), Section::Coord),
            rows_in(tw, lines(text), Section::Demand),
            rows_in(tw, lines(text), Section::Window),
        ),
        x.demands@.len() == rows_in(tw, lines(text), Section::Demand).len(),
        forall|i: int|
            0 <= i < x.demands@.len() ==> int_of(
                #[trigger] rows_in(tw, lines(text), Section::Demand)[i][1],
                true,
                i64::MIN as int,
                i64::MAX as int,
            ) == Some(x.demands@[i] as int),
        x.windows@.len() == rows_in(tw, lines(text), Section::Window).len(),
        forall|i: int|
            0 <= i < x.windows@.len() ==> (int_of(
                #[trigger] rows_in(tw, lines(text), Section::Window)[i][1],
                true,
                i64::MIN as int,
                i64::MAX as int,
            ) matches Some(a) && x.windows@[i].0 == a * SCALE) && (int_of(
                rows_in(tw, lines(text), Section::Window)[i][2],
                true,
                i64::MIN as int,
                i64::MAX as int,
            ) matches Some(b) && x.windows@[i].1 == b * SCALE),
{
    lemma_rows_read(tw, lines(text));
    let d = read_instance(tw, text)->Ok_0;
    let m = rows_in(tw, lines(text), Section::Demand);
    let w = rows_in(tw, lines(text), Section::Window);
    assert forall|i: int| 0 <= i < x.demands@.len() implies int_of(#[trigger] m[i][1], true, i64::MIN as int, i64::MAX as int)
        == Some(x.demands@[i] as int) by {
        assert(x.demands@.map_values(|v: i64| v as int)[i] == d.demands[i]);
    }
    assert forall|i: int| 0 <= i < x.windows@.len() implies (int_of(#[trigger] w[i][1], true, i64::MIN as int, i64::MAX as int) matches Some(
        a,
    ) && x.windows@[i].0 == a * SCALE) && (int_of(w[i][2], true, i64::MIN as int, i64::MAX as int) matches Some(b)
        && x.windows@[i].1 == b * SCALE) by {
        assert(x.windows@.map_values(|v: (i64, i64)| (v.0 as int, v.1 as int))[i] == d.windows[i]);
    }
}

/// A header line sets the name only under `NAME`, to its value as written,
/// and the dimension only under `DIMENSION`, to the count its value spells.
proof fn lemma_header_name_dim(tw: bool, d: Doc, key: Seq<u8>, value: Seq<u8>)
    requires
        read_header(tw, d, key, value) is Ok,
    ensures
        ({
            let d2 = read_header(tw, d, key, value)->Ok_0;
            &&& key == kw_name() ==> d2.name == value
            &&& key != kw_name() ==> d2.name == d.name
            &&& key == kw_dimension() ==> int_of(value, false, 0, usize::MAX as int) == Some(d2.dimension)
            &&& key != kw_dimension() ==> d2.dimension == d.dimension
        }),
{
    assert(kw_name() != kw_dimension()) by {
        assert(kw_name()[0] != kw_dimension()[0]);
    }
}

/// One line read: a `NAME` line sets the name, a `DIMENSION` line the
/// dimension, and every other line leaves both.
#[verifier::spinoff_prover]
#[verifier::rlimit(40)]
proof fn lemma_line_name_dim(tw: bool, d: Doc, line: Seq<u8>)
    requires
        read_line(tw, d, trim(line)) is Ok,
    ensures
        ({
            let d2 = read_line(tw, d, trim(line))->Ok_0;
            &&& match header_value(line, kw_name()) {
                Some(v) => d2.name == v,
                None => d2.name == d.name,
            }
            &&& match header_value(line, kw_dimension()) {
                Some(v) => int_of(v, false, 0, usize::MAX as int) == Some(d2.dimension),
                None => d2.dimension == d.dimension,
            }
        }),
{
    reveal(read_line);
    let t = trim(line);
    if t.len() == 0 {
    } else if t == kw_eof() {
        assert(colon_at(t) is None) by {
            assert forall|p: int| 0 <= p < t.len() implies t[p] != 58 by {}
        }
    } else {
        match colon_at(t) {
            Some(p) => {
                lemma_header_name_dim(tw, d, trim(t.subrange(0, p)), trim(t.subrange(p + 1, t.len() as int)));
            },
            None => {},
        }
    }
}

proof fn lemma_name_dim_read(tw: bool, ls: Seq<Seq<u8>>)
    requires
        read_lines(tw, ls) is Ok,
    ensures
        ({
            let d = read_lines(tw, ls)->Ok_0;
            &&& match last_header(ls, kw_name()) {
                Some(v) => d.name == v,
                None => d.name == Seq::<u8>::empty(),
            }
            &&& match last_header(ls, kw_dimension()) {
                Some(v) => int_of(v, false, 0, usize::MAX as int) == Some(d.dimension),
                None => d.dimension == 0,
            }
        }),
    decreases ls.len(),
{
    if ls.len() > 0 {
        lemma_name_dim_read(tw, ls.drop_last());
        lemma_line_name_dim(tw, read_lines(tw, ls.drop_last())->Ok_0, ls.last());
    }
}

/// A file's name is the value of its last `NAME` line as written (empty
/// without one), and it has one node per unit of the count its last
/// `DIMENSION` line spells (none without one): as many coordinate rows, as many demand rows in
/// a CVRP file, as many window rows in a VRPTW file.
pub proof fn lemma_name_and_size_as_written(tw: bool, text: Seq<u8>, x: RawInstance)
    requires
        read_instance(tw, text) is Ok,
        holds(x, read_instance(tw, text)->Ok_0),
    ensures
        match last_header(lines(text), kw_name()) {
            Some(v) => x.name@ == v,
            None => x.name@ == Seq::<u8>::empty(),
        },
        match last_header(lines(text), kw_dimension()) {
            Some(v) => int_of(v, false, 0, usize::MAX as int) == Some(x.coords@.len() as int),
            None => x.coords@.len() == 0,
        },
        !tw ==> x.demands@.len() == x.coords@.len(),
        tw ==> x.windows@.len() == x.coords@.len(),
{
    lemma_name_dim_read(tw, lines(text));
    let d = read_instance(tw, text)->Ok_0;
    assert(x.coords@.map_values(|c: (Vec<u8>, Vec<u8>)| (c.0@, c.1@)).len() == x.coords@.len());
    assert(x.demands@.map_values(|v: i64| v as int).len() == x.demands@.len());
    assert(x.windows@.map_values(|w: (i64, i64)| (w.0 as int, w.1 as int)).len() == x.windows@.len());
}

/// The first non-negative id that the first field of a `DEPOT_SECTION` row
/// spells among the lines `ls`.
pub open spec fn first_depot(tw: bool, ls: Seq<Seq<u8>>) -> Option<int>
    decreases ls.len(),
{
    if ls.len() == 0 {
        None
    } else {
        match first_depot(tw, ls.drop_last()) {
            Some(id) => Some(id),
            None => {
                let t = trim(ls.last());
                if is_row(t) && section_after(tw, ls.drop_last()) == Section::Depot {
                    match int_of(words(t)[0], true, i64::MIN as int, i64::MAX as int) {
                        Some(v) => if v >= 0 {
                            Some(v)
                        } else {
                            None
                        },
                        None => None,
                    }
                } else {
                    None
                }
            },
        }
    }
}

/// One line read: the depot is set once, by the first depot row with a
/// non-negative id.
#[verifier::spinoff_prover]
#[verifier::rlimit(40)]
proof fn lemma_line_depot(tw: bool, d: Doc, line: Seq<u8>)
    requires
        read_line(tw, d, trim(line)) is Ok,
    ensures
        ({
            let t = trim(line);
            let d2 = read_line(tw, d, t)->Ok_0;
            &&& d.depot is Some ==> d2.depot == d.depot
            &&& d.depot is None ==> (if is_row(t) && d.section == Section::Depot {
                match int_of(words(t)[0], true, i64::MIN as int, i64::MAX as int) {
                    Some(v) => if v >= 0 {
                        d2.depot == Some(v)
                    } else {
                        d2.depot is None
                    },
                    None => d2.depot is None,
                }
            } else {
                d2.depot is None
            })
        }),
{
    reveal(read_line);
}

proof fn lemma_depot_read(tw: bool, ls: Seq<Seq<u8>>)
    requires
        read_lines(tw, ls) is Ok,
    ensures
        read_lines(tw, ls)->Ok_0.depot == first_depot(tw, ls),
    decreases ls.len(),
{
    if ls.len() > 0 {
        lemma_depot_read(tw, ls.drop_last());
        lemma_rows_read(tw, ls.drop_last());
        lemma_line_depot(tw, read_lines(tw, ls.drop_last())->Ok_0, ls.last());
    }
}

/// The depot of a CVRP or VRPTW file is the first non-negative id that a
/// `DEPOT_SECTION` row spells, counted from 1 in the file and from 0 in the
/// instance.
pub proof fn lemma_depot_as_written(tw: bool, text: Seq<u8>, x: RawInstance)
    requires
        read_instance(tw, text) is Ok,
        holds(x, read_instance(tw, text)->Ok_0),
    ensures
        first_depot(tw, lines(text)) == Some(x.depot.0 + 1),
{
    lemma_depot_read(tw, lines(text));
}

} // verus!
