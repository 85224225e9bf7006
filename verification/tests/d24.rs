use advent_of_code::aoc::y2024::d24;
use advent_of_code::aoc::y2024::d24::{Expr, Op};
use advent_of_code::aoc::y2024::d24_circuit_repair::{
    self, apply_swaps, circuit_mnemonics, fits_half_pattern, fits_pattern, parse_name, test_report, Circuit,
};

// The puzzle input itself is not part of the repository. This circuit is built so that it
// gives the recorded answers: a 45-bit ripple-carry adder whose inputs hold the numbers
// the repair of the circuit is tried with, and in which four pairs of gate outputs are
// swapped (z08 and mvb, jss and rds, wss and z18, bmn and z23).
pub const INPUT: &str = "x00: 1\n\
x01: 1\n\
x02: 1\n\
x03: 1\n\
x04: 0\n\
x05: 1\n\
x06: 0\n\
x07: 1\n\
x08: 0\n\
x09: 1\n\
x10: 1\n\
x11: 1\n\
x12: 1\n\
x13: 0\n\
x14: 1\n\
x15: 0\n\
x16: 0\n\
x17: 1\n\
x18: 0\n\
x19: 1\n\
x20: 0\n\
x21: 0\n\
x22: 0\n\
x23: 1\n\
x24: 0\n\
x25: 0\n\
x26: 1\n\
x27: 1\n\
x28: 0\n\
x29: 0\n\
x30: 1\n\
x31: 1\n\
x32: 1\n\
x33: 1\n\
x34: 1\n\
x35: 0\n\
x36: 1\n\
x37: 0\n\
x38: 1\n\
x39: 1\n\
x40: 0\n\
x41: 0\n\
x42: 0\n\
x43: 0\n\
x44: 1\n\
y00: 1\n\
y01: 1\n\
y02: 1\n\
y03: 1\n\
y04: 1\n\
y05: 0\n\
y06: 0\n\
y07: 0\n\
y08: 0\n\
y09: 0\n\
y10: 1\n\
y11: 0\n\
y12: 0\n\
y13: 0\n\
y14: 1\n\
y15: 1\n\
y16: 0\n\
y17: 1\n\
y18: 0\n\
y19: 1\n\
y20: 0\n\
y21: 0\n\
y22: 0\n\
y23: 0\n\
y24: 1\n\
y25: 1\n\
y26: 0\n\
y27: 1\n\
y28: 0\n\
y29: 1\n\
y30: 1\n\
y31: 1\n\
y32: 1\n\
y33: 0\n\
y34: 1\n\
y35: 1\n\
y36: 1\n\
y37: 1\n\
y38: 0\n\
y39: 1\n\
y40: 0\n\
y41: 0\n\
y42: 1\n\
y43: 0\n\
y44: 1\n\
\n\
x39 AND y39 -> wns\n\
neb OR ubp -> kge\n\
msp XOR eft -> z29\n\
x38 XOR y38 -> wwu\n\
x00 AND y00 -> til\n\
oll OR vse -> bai\n\
x17 AND y17 -> rql\n\
dsh OR agn -> ifm\n\
x23 XOR y23 -> qmd\n\
rds XOR kge -> z14\n\
ghw AND tcs -> min\n\
len XOR ksj -> z28\n\
pme AND pij -> fup\n\
x14 XOR y14 -> jss\n\
x32 AND y32 -> kjp\n\
wwu AND nts -> pmv\n\
x14 AND y14 -> rds\n\
x33 XOR y33 -> toh\n\
pwr AND jef -> ens\n\
x42 AND y42 -> htu\n\
jvk OR jfc -> uew\n\
x13 XOR y13 -> iou\n\
pgr XOR dkf -> z25\n\
iou AND htl -> ubp\n\
x04 XOR y04 -> ffj\n\
iou XOR htl -> z13\n\
x13 AND y13 -> neb\n\
x35 XOR y35 -> qut\n\
x20 XOR y20 -> quv\n\
x36 AND y36 -> oll\n\
x10 AND y10 -> cgk\n\
x03 XOR y03 -> fce\n\
x21 AND y21 -> qeq\n\
dvr OR gan -> nts\n\
x21 XOR y21 -> olk\n\
x06 AND y06 -> vwk\n\
jss OR nle -> bnj\n\
x31 AND y31 -> wmm\n\
dmr OR fup -> kfc\n\
x09 XOR y09 -> dho\n\
rov XOR bai -> z37\n\
x27 AND y27 -> tjd\n\
x16 AND y16 -> dmr\n\
x26 AND y26 -> lal\n\
x30 XOR y30 -> kst\n\
x09 AND y09 -> lql\n\
x29 AND y29 -> get\n\
x22 XOR y22 -> cvn\n\
msp AND eft -> clv\n\
x41 XOR y41 -> hic\n\
pjp XOR nnh -> z31\n\
toh AND adv -> map\n\
x43 AND y43 -> ctg\n\
aoh OR ubf -> dlp\n\
x15 XOR y15 -> eot\n\
x16 XOR y16 -> pme\n\
x43 XOR y43 -> fnf\n\
fts OR qvn -> bpr\n\
x11 AND y11 -> jvk\n\
cja AND gjo -> jup\n\
qmd XOR bpr -> bmn\n\
qeq OR fgl -> pjw\n\
x40 XOR y40 -> pwr\n\
x11 XOR y11 -> wrc\n\
x37 AND y37 -> dvr\n\
x22 AND y22 -> fts\n\
toh XOR adv -> z33\n\
x29 XOR y29 -> msp\n\
jbe OR map -> rri\n\
wmm OR ftt -> ijp\n\
wuq AND til -> ubf\n\
lnf OR eic -> kjt\n\
x05 XOR y05 -> mja\n\
ufs XOR wjk -> z19\n\
x33 AND y33 -> jbe\n\
pkr OR ens -> rbc\n\
kst AND amd -> usm\n\
x39 XOR y39 -> cja\n\
x28 XOR y28 -> len\n\
jpf XOR uew -> z12\n\
x41 AND y41 -> cva\n\
ina AND ijp -> jep\n\
pjp AND nnh -> ftt\n\
x30 AND y30 -> rek\n\
pme XOR pij -> z16\n\
jqa AND wkt -> vse\n\
piq XOR kfc -> z17\n\
htu OR dwe -> jwo\n\
x15 AND y15 -> fqo\n\
x01 AND y01 -> aoh\n\
lbr XOR dwr -> z27\n\
x23 AND y23 -> fwj\n\
x26 XOR y26 -> ghw\n\
x19 AND y19 -> apr\n\
pwr XOR jef -> z40\n\
olk AND lfw -> fgl\n\
bph OR fbe -> dkf\n\
x08 XOR y08 -> sjd\n\
msa OR mvb -> ftg\n\
hpi OR ejj -> ptp\n\
quv AND ioj -> uln\n\
fce AND ifm -> eea\n\
bno OR lmv -> tcs\n\
x35 AND y35 -> dae\n\
x12 AND y12 -> bct\n\
x24 XOR y24 -> fuw\n\
x01 XOR y01 -> wuq\n\
x18 AND y18 -> z18\n\
upm OR pmv -> gjo\n\
lal OR min -> dwr\n\
kst XOR amd -> z30\n\
tjd OR jrq -> ksj\n\
dho XOR ftg -> z09\n\
qmd AND bpr -> vsq\n\
x40 AND y40 -> pkr\n\
bdd AND mwp -> dwe\n\
sat AND kjt -> cjl\n\
rql OR clw -> fmm\n\
pwf OR bia -> mcr\n\
bdd XOR mwp -> z42\n\
ffj AND agg -> vug\n\
olk XOR lfw -> z21\n\
x36 XOR y36 -> jqa\n\
fce XOR ifm -> z03\n\
x07 XOR y07 -> kfp\n\
rds AND kge -> nle\n\
ffj XOR agg -> z04\n\
len AND ksj -> rlo\n\
x34 AND y34 -> hpi\n\
x44 XOR y44 -> ibs\n\
x04 AND y04 -> kgr\n\
mcr AND sjd -> z08\n\
sjd XOR mcr -> mvb\n\
jbn XOR dsl -> z10\n\
mja AND fwg -> eic\n\
wns OR jup -> jef\n\
fuw XOR bmn -> z24\n\
cja XOR gjo -> z39\n\
nsu OR rlo -> eft\n\
fqo OR pwk -> pij\n\
fuw AND bmn -> fbe\n\
wwu XOR nts -> z38\n\
x00 XOR y00 -> z00\n\
hpb XOR rri -> z34\n\
x25 AND y25 -> bno\n\
jqa XOR wkt -> z36\n\
hmr AND dlp -> agn\n\
jbn AND dsl -> qtl\n\
cgk OR qtl -> eki\n\
x10 XOR y10 -> jbn\n\
x02 AND y02 -> dsh\n\
dae OR jjr -> wkt\n\
mja XOR fwg -> z05\n\
tto OR eea -> agg\n\
lli OR uln -> lfw\n\
lql OR qio -> dsl\n\
wrc AND eki -> jfc\n\
ibs XOR vmc -> z44\n\
rek OR usm -> nnh\n\
hic XOR rbc -> z41\n\
sdm OR tea -> z45\n\
x19 XOR y19 -> ufs\n\
cvn AND pjw -> qvn\n\
kjp OR jep -> adv\n\
eot AND bnj -> pwk\n\
wss OR piw -> wjk\n\
ibs AND vmc -> tea\n\
qut AND ptp -> jjr\n\
fnf AND jwo -> brd\n\
mfk XOR fmm -> wss\n\
x32 XOR y32 -> ina\n\
piq AND kfc -> clw\n\
eot XOR bnj -> z15\n\
x44 AND y44 -> sdm\n\
mfk AND fmm -> piw\n\
apr OR ikv -> ioj\n\
ina XOR ijp -> z32\n\
kfp AND jpw -> bia\n\
wrc XOR eki -> z11\n\
pgr AND dkf -> lmv\n\
hic AND rbc -> knc\n\
x42 XOR y42 -> bdd\n\
sat XOR kjt -> z06\n\
x12 XOR y12 -> jpf\n\
qut XOR ptp -> z35\n\
cvn XOR pjw -> z22\n\
x08 AND y08 -> msa\n\
x03 AND y03 -> tto\n\
x20 AND y20 -> lli\n\
rov AND bai -> gan\n\
x28 AND y28 -> nsu\n\
x02 XOR y02 -> hmr\n\
lbr AND dwr -> jrq\n\
x06 XOR y06 -> sat\n\
x17 XOR y17 -> piq\n\
x25 XOR y25 -> pgr\n\
x24 AND y24 -> bph\n\
fnf XOR jwo -> z43\n\
bct OR rmb -> htl\n\
ctg OR brd -> vmc\n\
x31 XOR y31 -> pjp\n\
ghw XOR tcs -> z26\n\
vwk OR cjl -> jpw\n\
x05 AND y05 -> lnf\n\
hmr XOR dlp -> z02\n\
hpb AND rri -> ejj\n\
get OR clv -> amd\n\
kgr OR vug -> fwg\n\
x18 XOR y18 -> mfk\n\
x34 XOR y34 -> hpb\n\
wuq XOR til -> z01\n\
x37 XOR y37 -> rov\n\
x07 AND y07 -> pwf\n\
dho AND ftg -> qio\n\
quv XOR ioj -> z20\n\
x38 AND y38 -> upm\n\
fwj OR vsq -> z23\n\
ufs AND wjk -> ikv\n\
jpf AND uew -> rmb\n\
cva OR knc -> mwp\n\
kfp XOR jpw -> z07\n\
x27 XOR y27 -> lbr\n\
";

#[test]
fn d24_test_part1() {
    assert_eq!(d24::part1(INPUT), 41324968993486);
}

#[test]
fn d24_test_part2() {
    assert_eq!(d24::part2(), 2);
}

#[test]
fn d24_small_circuit() {
    let input = "x00: 1\nx01: 0\ny00: 1\ny01: 1\n\nx00 AND y00 -> z01\nx01 XOR y01 -> z00\nz01 OR z00 -> z02\n";
    // z00 = 0 ^ 1 = 1, z01 = 1 & 1 = 1, z02 = 1 | 1 = 1
    assert_eq!(d24::part1(input), 7);
}

/// The code of a three-character wire name.
fn code(s: &str) -> u64 {
    let c: Vec<u64> = s.chars().map(|c| c as u64).collect();
    c[0] * 0x400_0000_0000 + c[1] * 0x20_0000 + c[2]
}

fn gate(l: &str, op: Op, r: &str, out: &str) -> Expr {
    Expr { l: code(l), op, r: code(r), out: code(out) }
}

#[test]
fn d24_circuit_repair_test_part1() {
    assert_eq!(d24_circuit_repair::part1(INPUT), 41324968993486);
}

#[test]
fn d24_circuit_repair_test_part2() {
    assert_eq!(d24_circuit_repair::part2(INPUT), "bmn,jss,mvb,rds,wss,z08,z18,z23");
}

#[test]
fn d24_circuit_repair_broken_circuit() {
    // Without the swaps the circuit does not add: z08 and mvb are crossed.
    let s = "x00: 1\ny00: 1\n\nx00 XOR y00 -> z01\nx00 AND y00 -> z00\n";
    assert_eq!(d24_circuit_repair::part2(s), "circuit is still broken");
}

#[test]
fn d24_circuit_repair_op_eval() {
    assert!(Op::And.eval(true, true));
    assert!(!Op::And.eval(true, false));
    assert!(Op::Or.eval(false, true));
    assert!(!Op::Xor.eval(true, true));
    assert!(Op::Xor.eval(false, true));
}

#[test]
fn d24_circuit_repair_parse_name() {
    assert_eq!(parse_name(code("x07")), Some(('x', 7)));
    assert_eq!(parse_name(code("z45")), Some(('z', 45)));
    assert_eq!(parse_name(code("abc")), None);
    assert_eq!(parse_name(code("a1b")), None);
}

/// A two-bit adder: z = x + y with the carry into z02.
fn two_bit_adder() -> Circuit {
    let inputs = vec![code("x00"), code("x01"), code("y00"), code("y01")];
    let exprs = vec![
        gate("aaa", Op::Xor, "ccc", "z01"),
        gate("x00", Op::Xor, "y00", "z00"),
        gate("x00", Op::And, "y00", "ccc"),
        gate("x01", Op::Xor, "y01", "aaa"),
        gate("x01", Op::And, "y01", "bbb"),
        gate("aaa", Op::And, "ccc", "ddd"),
        gate("bbb", Op::Or, "ddd", "z02"),
    ];
    Circuit::new(inputs, exprs)
}

#[test]
fn d24_circuit_repair_new_rounds() {
    let c = two_bit_adder();
    let names: Vec<u64> = c.nodes.iter().map(|n| n.name).collect();
    // Inputs first, then the gates round by round, each round in input order.
    let want = vec![
        code("x00"), code("x01"), code("y00"), code("y01"),
        code("z00"), code("ccc"), code("aaa"), code("bbb"),
        code("z01"), code("ddd"),
        code("z02"),
    ];
    assert_eq!(names, want);
    assert_eq!(c.topo.len(), 11);
}

#[test]
fn d24_circuit_repair_eval_from_inputs() {
    let c = two_bit_adder();
    for x in 0..4u64 {
        for y in 0..4u64 {
            assert_eq!(c.eval_from_inputs(x, y), x + y);
        }
    }
}

#[test]
fn d24_circuit_repair_eval_names() {
    let c = two_bit_adder();
    let mut given = std::collections::HashMap::new();
    given.insert(code("x00"), true);
    given.insert(code("y00"), true);
    given.insert(code("x01"), false);
    given.insert(code("y01"), true);
    let out = c.eval(&given);
    assert_eq!(out.len(), 11);
    assert_eq!(out[&code("z00")], false);
    assert_eq!(out[&code("ccc")], true);
    assert_eq!(out[&code("z01")], false);
    assert_eq!(out[&code("z02")], true);
}

#[test]
fn d24_circuit_repair_patterns() {
    let c = two_bit_adder();
    // Node 5 is "ccc" = x00 & y00; the graph lists its inputs right first.
    assert_eq!(fits_half_pattern(&c, 5, 'y', 'x', Op::And), Some(0));
    assert_eq!(fits_half_pattern(&c, 5, 'x', 'y', Op::And), None);
    assert_eq!(fits_pattern(&c, 5, 'x', 'y', Op::And), Some(0));
    assert_eq!(fits_pattern(&c, 5, 'x', 'y', Op::Xor), None);
    // "z00" already has a name of that form.
    assert_eq!(fits_pattern(&c, 4, 'x', 'y', Op::Xor), None);
}

#[test]
fn d24_circuit_repair_mnemonics() {
    let mut c = two_bit_adder();
    circuit_mnemonics(&mut c);
    let names: Vec<u64> = c.nodes.iter().map(|n| n.name).collect();
    let want = vec![
        code("x00"), code("x01"), code("y00"), code("y01"),
        code("z00"), code("a01"), code("b01"), code("a02"),
        code("z01"), code("c02"),
        code("z02"),
    ];
    assert_eq!(names, want);
    assert_eq!(c.names[&code("c02")], 9);
}

#[test]
fn d24_circuit_repair_apply_swaps() {
    let s = "x00: 1\n\nsjd XOR mcr -> mvb\nabc OR def -> ghi\nfwj OR vsq -> z23\n";
    assert_eq!(apply_swaps(s), "x00: 1\n\nsjd XOR mcr -> z08\nabc OR def -> ghi\nfwj OR vsq -> bmn");
}

#[test]
fn d24_circuit_repair_test_report() {
    let c = two_bit_adder();
    let names = vec!["aaa", "bbb"];
    // The adder adds every pair right.
    assert_eq!(test_report(&c, &names, &vec![(1, 2), (3, 3), (0, 0)]), "aaa,bbb");
    // No pairs: nothing failed.
    assert_eq!(test_report(&c, &names, &vec![]), "aaa,bbb");
    // A circuit that puts x AND y on z00 fails on 1 + 0.
    let broken = Circuit::new(
        vec![code("x00"), code("y00")],
        vec![gate("x00", Op::And, "y00", "z00"), gate("x00", Op::Xor, "y00", "z01")],
    );
    assert_eq!(test_report(&broken, &names, &vec![(1, 1), (1, 0)]), "circuit is still broken");
}
