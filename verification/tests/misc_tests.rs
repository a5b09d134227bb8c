use icfpc2024::assemble::{assemble, parse_mnemonic};
use icfpc2024::token::planner::encode_string;
use icfpc2024::token::{encode, Token};
use icfpc2024::union_find::UnionFind;
use icfpc2024::visualizer::lambdaman::SetMinMax;
use icfpc2024::visualizer::spaceship::SetMinMax as SpaceSetMinMax;
use icfpc2024::visualizer::{lambdaman, spaceship};

#[test]
fn assemble_numbers_strings_and_macros() {
    assert_eq!(parse_mnemonic("42").unwrap(), "IK");
    assert_eq!(parse_mnemonic("0").unwrap(), "I!");
    assert_eq!(parse_mnemonic("\"hi\"").unwrap(), "S()");
    assert_eq!(
        parse_mnemonic("Y").unwrap(),
        "L\" B$ L# B$ v\" B$ v# v# L# B$ v\" B$ v# v#"
    );
    assert_eq!(parse_mnemonic("B$").unwrap(), "B$");
    let out = assemble("B+ 2 3").unwrap();
    assert_eq!(out, vec!["B+".to_owned(), "I#".to_owned(), "I$".to_owned()]);
    assert!(parse_mnemonic("\"unterminated").is_err());
}

#[test]
fn union_find_merges_and_counts() {
    let mut uf = UnionFind::new(6);
    assert_eq!(uf.size(), 6);
    assert!(!uf.is_same_set(0, 1));
    let merged = uf.unite(0, 1);
    assert!(merged.is_some());
    assert!(uf.is_same_set(0, 1));
    assert_eq!(uf.size(), 5);
    assert_eq!(uf.unite(0, 1), None);
    uf.unite(1, 2).unwrap();
    assert_eq!(uf.union_size(2), 3);
    assert_eq!(uf.union_size(3), 1);
    assert_eq!(uf.size(), 4);
    let r = uf.root(0);
    assert!(uf.is_root(r));
}

#[test]
fn lambdaman_parse_and_score() {
    let board = "###\n#L.\n...\n";
    let input = lambdaman::parse_input(board);
    assert_eq!(input.pos, (1, 1));
    assert_eq!(input.dot, 4);
    assert_eq!(input.wall.len(), 3);
    assert!(input.wall[0][0] && !input.wall[1][1]);
    let out = lambdaman::parse_output(&input, "RDLL").unwrap();
    assert_eq!(out.moves, vec![3, 1, 2, 2]);
    let (score, err) = lambdaman::compute_score(&input, &out);
    assert_eq!(err, "");
    assert_eq!(score, 4);
    // Walking into a wall scores zero; the diagnostic names the direction
    // and the failing turn.
    let bad = lambdaman::parse_output(&input, "U").unwrap();
    let (bad_score, bad_err) = lambdaman::compute_score(&input, &bad);
    assert_eq!(bad_score, 0);
    assert_eq!(bad_err, "Invalid move: U in turn 1");
    // Stopping early leaves dots and scores zero; the diagnostic counts
    // them.
    let short = lambdaman::parse_output(&input, "R").unwrap();
    let (short_score, short_err) = lambdaman::compute_score(&input, &short);
    assert_eq!(short_score, 0);
    assert_eq!(short_err, "Unvisited squares remain: 3");
}

#[test]
fn spaceship_parse_and_score() {
    let input = spaceship::parse_input("1 -1\n1 -1\n2 -3\nbad line\n");
    assert_eq!(input.target, vec![(1, -1), (2, -3)]);
    assert_eq!(input.min_x, 0);
    assert_eq!(input.max_x, 2);
    assert_eq!(input.min_y, -3);
    assert_eq!(input.max_y, 0);
    // Thrust 9 is (+1,+1); thrust 1 is (-1,-1); thrust 6 is (+1,0).
    let out = spaceship::parse_output(&input, "96").unwrap();
    assert_eq!(out.moves, vec![8, 5]);
    // 9: vel (1,1) pos (1,1); 6: vel (2,1) pos (3,2): misses both targets.
    let (score, err) = spaceship::compute_score(&input, &out);
    assert_eq!(score, 0);
    assert!(!err.is_empty());
    // 3 is (+1,-1): vel (1,-1) pos (1,-1) hits the first target; then
    // 2 (0,-1): vel (1,-2) pos (2,-3) hits the second.
    let good = spaceship::parse_output(&input, "32").unwrap();
    let (good_score, good_err) = spaceship::compute_score(&input, &good);
    assert_eq!(good_err, "");
    assert_eq!(good_score, 2);
}

#[test]
fn lambdaman_parse_picks_last_start_and_first_bad_move() {
    // Two `L` cells: the later one in reading order wins.
    let input = lambdaman::parse_input("L..\n..L\n...");
    assert_eq!(input.pos, (1, 2));
    // Shorter rows are tolerated; their tail is wall-free.
    let ragged = lambdaman::parse_input("###\n#L\n.");
    assert_eq!(ragged.pos, (1, 1));
    assert_eq!(ragged.wall[1], vec![true, false, false]);
    assert_eq!(ragged.dot, 1);
    // The error names the first offending character.
    assert_eq!(lambdaman::parse_output(&input, "RXLY").unwrap_err(), 'X');
}

#[test]
fn spaceship_parse_output_names_first_offender() {
    let input = spaceship::parse_input("1 1\n");
    assert_eq!(spaceship::parse_output(&input, "9a8b").unwrap_err(), 'a');
}

#[test]
fn union_find_keeps_larger_root() {
    let mut uf = UnionFind::new(5);
    // {0,1} then {0,1,2}: the larger set's root survives the second merge.
    let first = uf.unite(0, 1).unwrap();
    let (r01, _) = first;
    let second = uf.unite(2, 0).unwrap();
    assert_eq!(second, (r01, 2));
    assert_eq!(uf.union_size(2), 3);
}

#[test]
fn planner_never_beats_itself() {
    // A payload whose trailing word uses only maze directions: the chosen
    // candidate must encode and never exceed the naive literal's length.
    let payload = "solve lambdaman1 UUDDLRLR";
    let naive_len = encode(&[Token::String(payload.into())]).unwrap().len();
    let cand = encode_string(payload).unwrap();
    let cand_len = encode(&cand).unwrap().len();
    assert!(cand_len <= naive_len);
    // The chosen candidate still evaluates to the original payload.
    let evaluated = icfpc2024::eval_tokens(&cand, 1_000_000).unwrap();
    assert_eq!(evaluated, payload);
}

#[test]
fn planner_handles_long_direction_runs() {
    let mut payload = "solve lambdaman9 ".to_owned();
    for _ in 0..60 {
        payload.push('R');
    }
    for _ in 0..40 {
        payload.push('D');
    }
    let naive_len = encode(&[Token::String(payload.clone())]).unwrap().len();
    let cand = encode_string(&payload).unwrap();
    let cand_len = encode(&cand).unwrap().len();
    assert!(cand_len <= naive_len);
    let evaluated = icfpc2024::eval_tokens(&cand, 1_000_000).unwrap();
    assert_eq!(evaluated, payload);
}

#[test]
fn planner_handles_digit_payloads() {
    let mut payload = "solve spaceship9 ".to_owned();
    for _ in 0..40 {
        payload.push_str("123456789123456789");
    }
    let naive_len = encode(&[Token::String(payload.clone())]).unwrap().len();
    let cand = encode_string(&payload).unwrap();
    let cand_len = encode(&cand).unwrap().len();
    assert!(cand_len <= naive_len);
}

#[test]
fn planner_rejects_unencodable_payload() {
    assert!(encode_string("caf\u{e9}").is_err());
}

#[test]
fn setminmax_lowers_and_raises() {
    let mut x: usize = 5;
    assert!(x.setmin(3));
    assert_eq!(x, 3);
    assert!(!x.setmin(7));
    assert!(x.setmax(9));
    assert_eq!(x, 9);
    let mut y: i32 = -2;
    assert!(y.setmin(-5));
    assert_eq!(y, -5);
    assert!(y.setmax(4));
    assert_eq!(y, 4);
}
