use advent_of_code::aoc::y2024::d13_int_xsect_claw::{cheapest, part1, part2, Machine};

// The puzzle input itself is not part of the repository; this one is built so that it gives
// the recorded answers.
const PUZZLE: &str = "Button A: X+38, Y+72\n\
Button B: X+76, Y+53\n\
Prize: X=9956, Y=11402\n\
\n\
Button A: X+85, Y+23\n\
Button B: X+10, Y+98\n\
Prize: X=7260, Y=9588\n\
\n\
Button A: X+36, Y+49\n\
Button B: X+62, Y+64\n\
Prize: X=2542, Y=2991\n\
\n\
Button A: X+18, Y+82\n\
Button B: X+40, Y+26\n\
Prize: X=1854, Y=4228\n\
\n\
Button A: X+1, Y+1\n\
Button B: X+1, Y+2\n\
Prize: X=315489459467, Y=630978918934\n\
\n\
Button A: X+80, Y+51\n\
Button B: X+61, Y+38\n\
Prize: X=10559, Y=6679\n\
\n\
Button A: X+16, Y+21\n\
Button B: X+37, Y+42\n\
Prize: X=2992, Y=3612\n\
\n\
Button A: X+48, Y+60\n\
Button B: X+87, Y+40\n\
Prize: X=4320, Y=3200\n\
\n\
Button A: X+77, Y+11\n\
Button B: X+28, Y+91\n\
Prize: X=10269, Y=10167\n\
\n\
Button A: X+88, Y+36\n\
Button B: X+48, Y+28\n\
Prize: X=10240, Y=4900\n\
\n\
Button A: X+26, Y+20\n\
Button B: X+55, Y+44\n\
Prize: X=7169, Y=5672\n\
\n\
Button A: X+90, Y+29\n\
Button B: X+49, Y+39\n\
Prize: X=7633, Y=4711\n\
\n\
Button A: X+46, Y+25\n\
Button B: X+46, Y+20\n\
Prize: X=7544, Y=3715\n\
\n\
Button A: X+56, Y+63\n\
Button B: X+52, Y+46\n\
Prize: X=8672, Y=8681\n\
\n\
Button A: X+58, Y+79\n\
Button B: X+48, Y+53\n\
Prize: X=9418, Y=11850\n\
\n\
Button A: X+43, Y+95\n\
Button B: X+33, Y+92\n\
Prize: X=4900, Y=12143\n\
\n\
Button A: X+98, Y+51\n\
Button B: X+56, Y+23\n\
Prize: X=9352, Y=4830\n\
\n\
Button A: X+59, Y+30\n\
Button B: X+59, Y+70\n\
Prize: X=5959, Y=6630\n\
\n\
Button A: X+73, Y+84\n\
Button B: X+98, Y+21\n\
Prize: X=10192, Y=8883\n\
\n\
Button A: X+58, Y+30\n\
Button B: X+47, Y+77\n\
Prize: X=4012, Y=3972\n\
\n\
Button A: X+33, Y+45\n\
Button B: X+61, Y+32\n\
Prize: X=6556, Y=6125\n\
\n\
Button A: X+98, Y+48\n\
Button B: X+73, Y+98\n\
Prize: X=7752, Y=8652\n\
\n\
Button A: X+82, Y+90\n\
Button B: X+35, Y+96\n\
Prize: X=4381, Y=9588\n\
\n\
Button A: X+37, Y+85\n\
Button B: X+67, Y+31\n\
Prize: X=3267, Y=6399\n\
\n\
Button A: X+37, Y+88\n\
Button B: X+88, Y+54\n\
Prize: X=4681, Y=4766\n\
\n\
Button A: X+17, Y+69\n\
Button B: X+72, Y+32\n\
Prize: X=2072, Y=6328\n\
\n\
Button A: X+76, Y+77\n\
Button B: X+72, Y+11\n\
Prize: X=8904, Y=4499\n\
\n\
Button A: X+41, Y+15\n\
Button B: X+76, Y+22\n\
Prize: X=8768, Y=2726\n\
\n\
Button A: X+27, Y+59\n\
Button B: X+77, Y+76\n\
Prize: X=7647, Y=8130\n\
\n\
Button A: X+66, Y+61\n\
Button B: X+74, Y+16\n\
Prize: X=12166, Y=7210\n\
\n\
Button A: X+58, Y+51\n\
Button B: X+42, Y+76\n\
Prize: X=3040, Y=3181\n\
\n\
Button A: X+41, Y+82\n\
Button B: X+52, Y+16\n\
Prize: X=5795, Y=7542\n\
\n\
Button A: X+56, Y+25\n\
Button B: X+51, Y+66\n\
Prize: X=5363, Y=3475\n\
\n\
Button A: X+29, Y+51\n\
Button B: X+12, Y+44\n\
Prize: X=1673, Y=4087\n\
\n\
Button A: X+91, Y+24\n\
Button B: X+42, Y+63\n\
Prize: X=12628, Y=8367\n\
\n\
Button A: X+64, Y+71\n\
Button B: X+59, Y+55\n\
Prize: X=3691, Y=3917\n\
\n\
Button A: X+60, Y+54\n\
Button B: X+53, Y+52\n\
Prize: X=9142, Y=8546\n\
\n\
Button A: X+72, Y+61\n\
Button B: X+53, Y+94\n\
Prize: X=7550, Y=8655\n\
\n\
Button A: X+27, Y+95\n\
Button B: X+63, Y+68\n\
Prize: X=7245, Y=12891\n\
\n\
Button A: X+86, Y+51\n\
Button B: X+47, Y+80\n\
Prize: X=12047, Y=11158\n\
\n\
Button A: X+67, Y+27\n\
Button B: X+40, Y+82\n\
Prize: X=4665, Y=5701\n\
\n\
Button A: X+38, Y+44\n\
Button B: X+54, Y+79\n\
Prize: X=4734, Y=6404\n\
\n\
Button A: X+95, Y+28\n\
Button B: X+61, Y+73\n\
Prize: X=3827, Y=1238\n\
\n\
Button A: X+20, Y+27\n\
Button B: X+41, Y+71\n\
Prize: X=2638, Y=4156\n\
\n\
Button A: X+76, Y+84\n\
Button B: X+36, Y+73\n\
Prize: X=6060, Y=8923\n\
\n\
Button A: X+21, Y+93\n\
Button B: X+36, Y+78\n\
Prize: X=4905, Y=14475\n\
\n\
Button A: X+80, Y+39\n\
Button B: X+55, Y+88\n\
Prize: X=8885, Y=8431\n\
\n\
Button A: X+33, Y+26\n\
Button B: X+31, Y+98\n\
Prize: X=3002, Y=3616\n\
\n\
Button A: X+71, Y+63\n\
Button B: X+52, Y+96\n\
Prize: X=4879, Y=8667\n\
\n\
Button A: X+16, Y+70\n\
Button B: X+58, Y+60\n\
Prize: X=4724, Y=6330\n\
\n\
Button A: X+34, Y+29\n\
Button B: X+75, Y+86\n\
Prize: X=7281, Y=8259\n\
\n\
Button A: X+56, Y+56\n\
Button B: X+13, Y+56\n\
Prize: X=4013, Y=7840\n\
\n\
Button A: X+50, Y+33\n\
Button B: X+73, Y+25\n\
Prize: X=9263, Y=4236\n\
\n\
Button A: X+84, Y+15\n\
Button B: X+91, Y+30\n\
Prize: X=10458, Y=2775\n\
\n\
Button A: X+50, Y+19\n\
Button B: X+24, Y+55\n\
Prize: X=3566, Y=4062\n\
\n\
Button A: X+45, Y+53\n\
Button B: X+80, Y+79\n\
Prize: X=5370, Y=5868\n\
\n\
Button A: X+30, Y+25\n\
Button B: X+65, Y+62\n\
Prize: X=5570, Y=4955\n\
\n\
Button A: X+65, Y+82\n\
Button B: X+82, Y+72\n\
Prize: X=5048, Y=5928\n\
\n\
Button A: X+14, Y+54\n\
Button B: X+51, Y+57\n\
Prize: X=2756, Y=5880\n\
\n\
Button A: X+34, Y+44\n\
Button B: X+39, Y+43\n\
Prize: X=6463, Y=7699\n\
\n\
Button A: X+94, Y+44\n\
Button B: X+47, Y+94\n\
Prize: X=11092, Y=9368\n\
\n\
Button A: X+70, Y+54\n\
Button B: X+62, Y+89\n\
Prize: X=4204, Y=3943\n\
\n\
Button A: X+88, Y+97\n\
Button B: X+37, Y+84\n\
Prize: X=7196, Y=9142\n\
\n\
Button A: X+60, Y+89\n\
Button B: X+62, Y+28\n\
Prize: X=11456, Y=11364\n\
\n\
Button A: X+53, Y+64\n\
Button B: X+75, Y+27\n\
Prize: X=3051, Y=2985\n\
\n\
Button A: X+61, Y+24\n\
Button B: X+73, Y+48\n\
Prize: X=2792, Y=1272\n\
\n\
Button A: X+91, Y+19\n\
Button B: X+71, Y+18\n\
Prize: X=13169, Y=2956\n\
\n\
Button A: X+30, Y+30\n\
Button B: X+52, Y+89\n\
Prize: X=3086, Y=3937\n\
\n\
Button A: X+46, Y+13\n\
Button B: X+18, Y+82\n\
Prize: X=5166, Y=4075\n\
\n\
Button A: X+67, Y+23\n\
Button B: X+90, Y+78\n\
Prize: X=11496, Y=8280\n\
\n\
Button A: X+18, Y+69\n\
Button B: X+93, Y+61\n\
Prize: X=5139, Y=8175\n\
\n\
Button A: X+94, Y+70\n\
Button B: X+25, Y+65\n\
Prize: X=6865, Y=7385\n\
\n\
Button A: X+97, Y+35\n\
Button B: X+35, Y+70\n\
Prize: X=4729, Y=6755\n\
\n\
Button A: X+41, Y+87\n\
Button B: X+24, Y+16\n\
Prize: X=2912, Y=4328\n\
\n\
Button A: X+75, Y+75\n\
Button B: X+49, Y+47\n\
Prize: X=5449, Y=5297\n\
\n\
Button A: X+44, Y+16\n\
Button B: X+58, Y+73\n\
Prize: X=3648, Y=1638\n\
\n\
Button A: X+2, Y+2\n\
Button B: X+1, Y+2\n\
Prize: X=315489459467, Y=630978918934\n\
\n\
Button A: X+69, Y+79\n\
Button B: X+91, Y+13\n\
Prize: X=6259, Y=3245\n\
\n\
Button A: X+25, Y+12\n\
Button B: X+51, Y+59\n\
Prize: X=3949, Y=3587\n\
\n\
Button A: X+96, Y+88\n\
Button B: X+41, Y+11\n\
Prize: X=3617, Y=2651\n\
\n\
Button A: X+52, Y+72\n\
Button B: X+29, Y+67\n\
Prize: X=6720, Y=10808\n\
\n\
Button A: X+92, Y+19\n\
Button B: X+80, Y+86\n\
Prize: X=12232, Y=6278\n\
\n\
Button A: X+99, Y+55\n\
Button B: X+82, Y+30\n\
Prize: X=7172, Y=3300\n\
\n\
Button A: X+91, Y+84\n\
Button B: X+97, Y+63\n\
Prize: X=13298, Y=9807\n\
\n\
Button A: X+92, Y+58\n\
Button B: X+11, Y+22\n\
Prize: X=4206, Y=4128\n\
\n\
Button A: X+16, Y+50\n\
Button B: X+60, Y+16\n\
Prize: X=5640, Y=4934\n\
\n\
Button A: X+27, Y+97\n\
Button B: X+74, Y+44\n\
Prize: X=4906, Y=4536\n\
\n\
Button A: X+11, Y+53\n\
Button B: X+99, Y+50\n\
Prize: X=2673, Y=5193\n\
\n\
Button A: X+79, Y+26\n\
Button B: X+88, Y+21\n\
Prize: X=8874, Y=2618\n\
\n\
Button A: X+52, Y+21\n\
Button B: X+56, Y+44\n\
Prize: X=8160, Y=5220\n\
\n\
Button A: X+44, Y+86\n\
Button B: X+43, Y+38\n\
Prize: X=5939, Y=7510\n\
\n\
Button A: X+18, Y+69\n\
Button B: X+67, Y+58\n\
Prize: X=4920, Y=6930\n\
\n\
Button A: X+74, Y+82\n\
Button B: X+24, Y+25\n\
Prize: X=7798, Y=8590\n\
\n\
Button A: X+11, Y+86\n\
Button B: X+57, Y+57\n\
Prize: X=3328, Y=7753\n\
\n\
Button A: X+72, Y+13\n\
Button B: X+37, Y+18\n\
Prize: X=6735, Y=2065\n\
\n\
Button A: X+89, Y+22\n\
Button B: X+26, Y+96\n\
Prize: X=8691, Y=7254\n\
\n\
Button A: X+59, Y+98\n\
Button B: X+84, Y+68\n\
Prize: X=11595, Y=12250\n\
\n\
Button A: X+62, Y+95\n\
Button B: X+54, Y+10\n\
Prize: X=4142, Y=2855\n\
\n\
Button A: X+30, Y+90\n\
Button B: X+80, Y+35\n\
Prize: X=5260, Y=6145\n\
\n\
Button A: X+32, Y+78\n\
Button B: X+52, Y+97\n\
Prize: X=4968, Y=9432\n\
\n\
Button A: X+33, Y+34\n\
Button B: X+61, Y+14\n\
Prize: X=3551, Y=2242\n\
\n\
Button A: X+37, Y+63\n\
Button B: X+54, Y+41\n\
Prize: X=5250, Y=4405\n\
\n\
Button A: X+11, Y+19\n\
Button B: X+49, Y+37\n\
Prize: X=1789, Y=2185\n\
\n\
Button A: X+72, Y+59\n\
Button B: X+52, Y+46\n\
Prize: X=5736, Y=4924\n\
\n\
Button A: X+54, Y+62\n\
Button B: X+78, Y+81\n\
Prize: X=7662, Y=8164\n\
\n\
Button A: X+85, Y+71\n\
Button B: X+83, Y+27\n\
Prize: X=9595, Y=4205\n\
\n\
Button A: X+66, Y+53\n\
Button B: X+80, Y+63\n\
Prize: X=12054, Y=9594\n\
\n\
Button A: X+82, Y+11\n\
Button B: X+48, Y+94\n\
Prize: X=11324, Y=9312\n\
\n\
Button A: X+89, Y+11\n\
Button B: X+61, Y+88\n\
Prize: X=10511, Y=4598\n\
\n\
Button A: X+19, Y+21\n\
Button B: X+36, Y+84\n\
Prize: X=1283, Y=2037\n\
\n\
Button A: X+67, Y+97\n\
Button B: X+57, Y+54\n\
Prize: X=9262, Y=11926\n\
\n\
Button A: X+28, Y+98\n\
Button B: X+59, Y+71\n\
Prize: X=5688, Y=9610\n\
\n\
Button A: X+23, Y+81\n\
Button B: X+42, Y+72\n\
Prize: X=3052, Y=7560\n\
\n\
Button A: X+38, Y+71\n\
Button B: X+59, Y+35\n\
Prize: X=6244, Y=8356\n\
\n\
Button A: X+37, Y+81\n\
Button B: X+98, Y+55\n\
Prize: X=2081, Y=3758\n\
\n\
Button A: X+31, Y+93\n\
Button B: X+99, Y+89\n\
Prize: X=3561, Y=6523\n\
\n\
Button A: X+62, Y+11\n\
Button B: X+39, Y+29\n\
Prize: X=3380, Y=688\n\
\n\
Button A: X+33, Y+94\n\
Button B: X+27, Y+49\n\
Prize: X=5577, Y=13430\n\
\n\
Button A: X+73, Y+72\n\
Button B: X+78, Y+19\n\
Prize: X=5776, Y=3901\n\
\n\
Button A: X+5, Y+5\n\
Button B: X+1, Y+2\n\
Prize: X=315489459467, Y=630978918934\n\
\n\
Button A: X+72, Y+25\n\
Button B: X+39, Y+33\n\
Prize: X=10455, Y=5362\n\
\n\
Button A: X+11, Y+88\n\
Button B: X+52, Y+47\n\
Prize: X=5717, Y=12895\n\
\n\
Button A: X+59, Y+63\n\
Button B: X+48, Y+20\n\
Prize: X=4714, Y=2502\n\
\n\
Button A: X+37, Y+27\n\
Button B: X+15, Y+13\n\
Prize: X=4902, Y=3762\n\
\n\
Button A: X+28, Y+82\n\
Button B: X+77, Y+32\n\
Prize: X=6300, Y=4518\n\
\n\
Button A: X+50, Y+27\n\
Button B: X+19, Y+19\n\
Prize: X=4515, Y=3181\n\
\n\
Button A: X+94, Y+47\n\
Button B: X+13, Y+11\n\
Prize: X=10034, Y=5269\n\
\n\
Button A: X+53, Y+64\n\
Button B: X+29, Y+71\n\
Prize: X=2971, Y=4775\n\
\n\
Button A: X+17, Y+29\n\
Button B: X+56, Y+27\n\
Prize: X=6387, Y=5139\n\
\n\
Button A: X+88, Y+53\n\
Button B: X+56, Y+13\n\
Prize: X=10656, Y=4884\n\
\n\
Button A: X+59, Y+34\n\
Button B: X+82, Y+57\n\
Prize: X=14018, Y=9043\n\
\n\
Button A: X+75, Y+89\n\
Button B: X+42, Y+35\n\
Prize: X=10866, Y=11440\n\
\n\
Button A: X+29, Y+76\n\
Button B: X+76, Y+96\n\
Prize: X=8129, Y=13772\n\
\n\
Button A: X+1, Y+1\n\
Button B: X+1, Y+2\n\
Prize: X=315489459467, Y=630978918934\n\
\n\
Button A: X+69, Y+60\n\
Button B: X+37, Y+58\n\
Prize: X=10319, Y=11504\n\
\n\
Button A: X+39, Y+99\n\
Button B: X+24, Y+73\n\
Prize: X=4764, Y=12528\n\
\n\
Button A: X+76, Y+75\n\
Button B: X+81, Y+42\n\
Prize: X=10573, Y=6906\n\
\n\
Button A: X+61, Y+68\n\
Button B: X+34, Y+13\n\
Prize: X=7773, Y=7395\n\
\n\
Button A: X+94, Y+40\n\
Button B: X+11, Y+70\n\
Prize: X=2883, Y=4950\n\
\n\
Button A: X+31, Y+54\n\
Button B: X+95, Y+40\n\
Prize: X=6067, Y=5298\n\
\n\
Button A: X+28, Y+83\n\
Button B: X+35, Y+76\n\
Prize: X=5586, Y=14172\n\
\n\
Button A: X+57, Y+14\n\
Button B: X+50, Y+56\n\
Prize: X=4617, Y=3626\n\
\n\
Button A: X+32, Y+17\n\
Button B: X+68, Y+12\n\
Prize: X=6480, Y=1995\n\
";

const EXAMPLE: &str = "Button A: X+94, Y+34
Button B: X+22, Y+67
Prize: X=8400, Y=5400

Button A: X+26, Y+66
Button B: X+67, Y+21
Prize: X=12748, Y=12176

Button A: X+17, Y+86
Button B: X+84, Y+37
Prize: X=7870, Y=6450

Button A: X+69, Y+23
Button B: X+27, Y+71
Prize: X=18641, Y=10279
";

#[test]
fn d13_int_xsect_claw_test_part1() {
    assert_eq!(part1(PUZZLE), 33921);
}

#[test]
fn d13_int_xsect_claw_test_part2() {
    assert_eq!(part2(PUZZLE), 82261957837868);
}

#[test]
fn d13_example() {
    assert_eq!(part1(EXAMPLE), 480);
    assert_eq!(part2(EXAMPLE), 875318608908);
}

fn machine(ax: i128, ay: i128, bx: i128, by: i128, px: i128, py: i128) -> Machine {
    Machine { ax, ay, bx, by, px, py }
}

#[test]
fn d13_cheapest_cases() {
    // 80 presses of A and 40 of B.
    assert_eq!(cheapest(machine(94, 34, 22, 67, 8400, 5400)), Some(280));
    // The one way to reach the prize needs a fraction of a press.
    assert_eq!(cheapest(machine(26, 66, 67, 21, 12748, 12176)), None);
    // Parallel moves: no single crossing point.
    assert_eq!(cheapest(machine(1, 1, 2, 2, 4, 4)), None);
    // Reachable with B alone: a count of zero is not taken.
    assert_eq!(cheapest(machine(1, 2, 3, 1, 6, 2)), None);
    // A negative count is taken as it is: 3 * (-1) + 3.
    assert_eq!(cheapest(machine(1, 0, 1, 1, 2, 3)), Some(0));
}
