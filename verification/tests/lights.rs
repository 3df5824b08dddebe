use code_2015::lights::{Action, Grid, Instruction, ParseInstructionError, Position};

fn execute_grid_instruction(s: &str, size: usize) -> u32 {
    let mut g = Grid::new(size);
    g.apply(&Instruction::from_str(s).unwrap());
    return g.count();
}

fn execute_bright_grid_instruction(s: &str, size: usize) -> u32 {
    let mut g = Grid::new(size);
    g.apply_brightness(&Instruction::from_str(s).unwrap());
    return g.count();
}

#[test]
fn test_grid() {
    assert_eq!(execute_grid_instruction("turn on 0,0 through 999,999", 1000), 1000000);
    assert_eq!(execute_grid_instruction("toggle 0,0 through 999,0", 1000), 1000);
    assert_eq!(execute_grid_instruction("turn on 499,499 through 500,500", 1000), 4);
    assert_eq!(execute_grid_instruction("turn on 0,0 through 1,1", 4), 4);
}

#[test]
fn test_bright_grid() {
    assert_eq!(execute_bright_grid_instruction("toggle 0,0 through 999,999", 1000), 2000000);
    assert_eq!(execute_bright_grid_instruction("turn on 0,0 through 0,0", 1000), 1);
    assert_eq!(execute_bright_grid_instruction("turn on 0,0 through 1,1", 4), 4);
    assert_eq!(execute_bright_grid_instruction("toggle 0,0 through 1,1", 4), 8);
}

#[test]
fn instruction_lines() {
    assert_eq!(
        Instruction::from_str("turn off 1,2 through 30,40"),
        Ok(Instruction { action: Action::TurnOff, start: Position(1, 2), end: Position(30, 40) })
    );
    assert_eq!(Instruction::from_str("turn up 1,2 through 30,40"), Err(ParseInstructionError));
    assert_eq!(Instruction::from_str("toggle 1,2 through 30"), Err(ParseInstructionError));
    assert_eq!(Action::from_str("toggle"), Ok(Action::TOGGLE));
    assert_eq!(Action::from_str("Toggle"), Err(ParseInstructionError));
    assert_eq!(Position::from_str("3,4"), Ok(Position(3, 4)));
    assert_eq!(Position::from_str("3,4,5"), Ok(Position(3, 4)));
    assert_eq!(Position::from_str("3"), Err(ParseInstructionError));
    assert_eq!(Position::from_str("3,x"), Err(ParseInstructionError));
    assert_eq!(Position::from_str("3,4,"), Err(ParseInstructionError));
    assert_eq!(
        ParseInstructionError.to_string(),
        "provided string was not `true` or `false`"
    );
}

#[test]
fn switching_one_rectangle_after_another() {
    let mut g = Grid::new(3);
    g.apply(&Instruction::from_str("turn on 0,0 through 1,2").unwrap());
    assert_eq!(g.count(), 6);
    g.apply(&Instruction::from_str("toggle 1,1 through 2,2").unwrap());
    // columns 1 and 2 of rows 1 and 2: two lights go off, two go on
    assert_eq!(g.count(), 6);
    g.apply(&Instruction::from_str("turn off 0,0 through 0,0").unwrap());
    assert_eq!(g.count(), 5);
    // a rectangle that ends before it starts holds no light
    g.apply(&Instruction { action: Action::TurnOn, start: Position(2, 2), end: Position(1, 9) });
    assert_eq!(g.count(), 5);
}

#[test]
fn dimming_never_goes_below_dark() {
    let mut g = Grid::new(2);
    g.apply_brightness(&Instruction::from_str("turn off 0,0 through 1,1").unwrap());
    assert_eq!(g.count(), 0);
    g.apply_brightness(&Instruction::from_str("toggle 0,0 through 0,1").unwrap());
    g.apply_brightness(&Instruction::from_str("turn off 0,0 through 1,1").unwrap());
    assert_eq!(g.count(), 2);
}

#[test]
fn what_a_grid_can_take() {
    let mut g = Grid::new(3);
    let inside = Instruction::from_str("toggle 0,0 through 2,2").unwrap();
    let outside = Instruction::from_str("toggle 0,0 through 3,2").unwrap();
    let below = Instruction::from_str("toggle 0,0 through 2,3").unwrap();
    let empty = Instruction { action: Action::TurnOn, start: Position(9, 9), end: Position(3, 3) };
    assert!(g.can_apply(&inside));
    assert!(!g.can_apply(&outside));
    assert!(!g.can_apply(&below));
    assert!(g.can_apply(&empty));
    assert!(g.can_apply_brightness(&inside));
    assert!(!g.can_apply_brightness(&outside));
    assert!(g.can_apply_brightness(&empty));
    assert!(g.count_fits());
    g.apply_brightness(&inside);
    assert!(g.count_fits());
    assert_eq!(g.count(), 18);
}
