use puzzles::stacks::apply_operations;
use puzzles::stacks::apply_operations_9001;
use puzzles::stacks::get_tops;
use puzzles::stacks::parse_operations;
use puzzles::stacks::parse_stacks;
use puzzles::stacks::Op;
use puzzles::stacks::Stacks;
use puzzles::SolveError;

const INPUT: &str = "    [D]
[N] [C]
[Z] [M] [P]
 1   2   3

move 1 from 2 to 1
move 3 from 1 to 3
move 2 from 2 to 1
move 1 from 1 to 2";

#[test]
fn tops_after_single_moves() {
    assert_eq!(get_tops(INPUT.as_bytes(), false), Ok(b"CMZ".to_vec()));
}

#[test]
fn tops_after_block_moves() {
    assert_eq!(get_tops(INPUT.as_bytes(), true), Ok(b"MCD".to_vec()));
}

#[test]
fn parse_stacks_reads_the_diagram() {
    let diagram = "    [D]    \n[N] [C]    \n[Z] [M] [P]\n 1   2   3 ";
    let st = parse_stacks(diagram.as_bytes()).unwrap();
    assert_eq!(st.names, vec![1, 2, 3]);
    assert_eq!(
        st.piles,
        vec![
            vec![b"[Z]".to_vec(), b"[N]".to_vec()],
            vec![b"[M]".to_vec(), b"[C]".to_vec(), b"[D]".to_vec()],
            vec![b"[P]".to_vec()],
        ]
    );
}

#[test]
fn parse_operations_reads_the_moves() {
    let ops = parse_operations(b"move 1 from 2 to 1\nmove 3 from 1 to 3").unwrap();
    assert_eq!(
        ops,
        vec![
            Op { num: 1, from: 2, to: 1 },
            Op { num: 3, from: 1, to: 3 },
        ]
    );
}

#[test]
fn single_moves_reverse_and_block_moves_preserve() {
    // Move two crates away and bring them back as a block: the pair
    // ends reversed.  Two block moves restore the starting order.
    let start = || Stacks {
        names: vec![1, 2],
        piles: vec![
            vec![b"[A]".to_vec(), b"[B]".to_vec(), b"[C]".to_vec()],
            vec![],
        ],
    };
    let there = vec![Op { num: 2, from: 1, to: 2 }];
    let back = vec![Op { num: 2, from: 2, to: 1 }];

    let mixed = apply_operations(start(), &there).unwrap();
    let mixed = apply_operations_9001(mixed, &back).unwrap();
    assert_eq!(
        mixed.piles[0],
        vec![b"[A]".to_vec(), b"[C]".to_vec(), b"[B]".to_vec()]
    );

    let pure = apply_operations_9001(start(), &there).unwrap();
    let pure = apply_operations_9001(pure, &back).unwrap();
    assert_eq!(
        pure.piles[0],
        vec![b"[A]".to_vec(), b"[B]".to_vec(), b"[C]".to_vec()]
    );

    assert_ne!(mixed.piles[0], pure.piles[0]);
}

#[test]
fn moving_too_many_crates_is_malformed() {
    let st = parse_stacks(b"[A]\n 1 ").unwrap();
    let ops = vec![Op { num: 2, from: 1, to: 1 }];
    assert_eq!(
        apply_operations(st, &ops).map(|_| ()),
        Err(SolveError::Malformed)
    );
}

#[test]
fn unknown_stack_name_is_malformed() {
    let st = parse_stacks(b"[A]\n 1 ").unwrap();
    let ops = vec![Op { num: 1, from: 1, to: 9 }];
    assert_eq!(
        apply_operations(st, &ops).map(|_| ()),
        Err(SolveError::Malformed)
    );
}

#[test]
fn missing_separator_is_malformed() {
    assert_eq!(
        get_tops(b"[A]\n 1 ", false).map(|_| ()),
        Err(SolveError::Malformed)
    );
}

#[test]
fn empty_stack_has_no_top() {
    let input = "[A]\n 1   2 \n\n";
    assert_eq!(
        get_tops(input.as_bytes(), false).map(|_| ()),
        Err(SolveError::Malformed)
    );
}
