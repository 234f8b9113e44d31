use quests::spin::{match_instruction, part_1, part_2, part_3, SpinError};

#[test]
fn signed_instructions_parse() {
    assert_eq!(match_instruction(&b"R12".to_vec()), Ok(12));
    assert_eq!(match_instruction(&b"L12".to_vec()), Ok(-12));
    assert_eq!(match_instruction(&b"L-3".to_vec()), Ok(3));
    assert_eq!(match_instruction(&b"R+7".to_vec()), Ok(7));
    assert_eq!(match_instruction(&b"Rx7".to_vec()), Err(SpinError::BadNumber));
    assert_eq!(match_instruction(&b"R".to_vec()), Err(SpinError::BadNumber));
    assert_eq!(match_instruction(&b"R9999999999".to_vec()), Err(SpinError::BadNumber));
    assert_eq!(match_instruction(&b"X5".to_vec()), Err(SpinError::BadDirection));
}

fn names() -> Vec<Vec<u8>> {
    vec![b"AAA".to_vec(), b"BBB".to_vec(), b"CCC".to_vec()]
}

#[test]
fn seeded_clamped_fold() {
    // the first offset seeds the position: 1, then 1-5 clamps to 0,
    // then 0+2 = 2
    let instrs = vec![b"R1".to_vec(), b"L5".to_vec(), b"R2".to_vec()];
    assert_eq!(part_1(&names(), &instrs), Ok(b"CCC".to_vec()));
}

#[test]
fn seeded_wrapped_fold() {
    // 1, then 1-5 wraps to 2, then 2+2 wraps to 1
    let instrs = vec![b"R1".to_vec(), b"L5".to_vec(), b"R2".to_vec()];
    assert_eq!(part_2(&names(), &instrs), Ok(b"BBB".to_vec()));
}

#[test]
fn seeded_swaps() {
    // swap 0<->1, swap 0<->1 again, swap 0<->2
    let instrs = vec![b"R1".to_vec(), b"L5".to_vec(), b"R2".to_vec()];
    assert_eq!(part_3(&names(), &instrs), Ok(b"CCC".to_vec()));
}
