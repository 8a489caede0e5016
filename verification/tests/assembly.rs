use tile_route::assembly::{
    assemble_course, assemble_route, write_segment, Instruction, Outcome, PathFeature,
};

type Point = (i64, i64);

fn whole(points: &[Point]) -> Vec<Option<Point>> {
    points.iter().map(|p| Some(*p)).collect()
}

fn step(index: usize, reversed: bool) -> Instruction {
    Instruction { index, reversed }
}

fn two_segments() -> Vec<Vec<Option<Point>>> {
    vec![whole(&[(0, 0), (1, 1)]), whole(&[(2, 2), (3, 3)])]
}

#[test]
fn assembly_follows_the_instructions() {
    let assembly = assemble_route(&two_segments(), &vec![step(0, false), step(1, true)]);
    assert_eq!(assembly.points, vec![(0, 0), (1, 1), (3, 3), (2, 2)]);
    assert_eq!(assembly.outcomes, vec![Outcome::Appended, Outcome::Appended]);
}

#[test]
fn assembly_may_use_a_segment_twice_and_in_both_directions() {
    let instructions = vec![step(1, false), step(0, true), step(1, true)];
    let assembly = assemble_route(&two_segments(), &instructions);
    assert_eq!(assembly.points, vec![(2, 2), (3, 3), (1, 1), (0, 0), (3, 3), (2, 2)]);
}

#[test]
fn assembly_skips_an_index_out_of_range_and_goes_on() {
    let instructions = vec![step(2, false), step(0, false), step(usize::MAX, true), step(1, false)];
    let assembly = assemble_route(&two_segments(), &instructions);
    assert_eq!(assembly.points, vec![(0, 0), (1, 1), (2, 2), (3, 3)]);
    assert_eq!(
        assembly.outcomes,
        vec![
            Outcome::InvalidIndex,
            Outcome::Appended,
            Outcome::InvalidIndex,
            Outcome::Appended,
        ]
    );
}

#[test]
fn assembly_leaves_out_a_segment_with_a_missing_point_whole() {
    let segments =
        vec![whole(&[(0, 0), (1, 1)]), vec![Some((2, 2)), None, Some((4, 4))], whole(&[(5, 5)])];
    let instructions = vec![step(0, false), step(1, false), step(1, true), step(2, false)];
    let assembly = assemble_route(&segments, &instructions);
    assert_eq!(assembly.points, vec![(0, 0), (1, 1), (5, 5)]);
    assert_eq!(
        assembly.outcomes,
        vec![
            Outcome::Appended,
            Outcome::ConversionFailed,
            Outcome::ConversionFailed,
            Outcome::Appended,
        ]
    );
}

#[test]
fn assembly_without_instructions_or_segments_is_empty() {
    let none = assemble_route(&two_segments(), &Vec::new());
    assert!(none.points.is_empty() && none.outcomes.is_empty());
    let segments: Vec<Vec<Option<Point>>> = Vec::new();
    let lost = assemble_route(&segments, &vec![step(0, false)]);
    assert!(lost.points.is_empty());
    assert_eq!(lost.outcomes, vec![Outcome::InvalidIndex]);
}

#[test]
fn segment_is_written_forwards_or_backwards() {
    let segment = whole(&[(1, 10), (2, 20), (3, 30)]);
    assert_eq!(write_segment(&segment, false), Some(vec![(1, 10), (2, 20), (3, 30)]));
    assert_eq!(write_segment(&segment, true), Some(vec![(3, 30), (2, 20), (1, 10)]));
}

#[test]
fn segment_with_a_missing_point_is_not_written() {
    for at in 0..3 {
        let mut segment = whole(&[(1, 10), (2, 20), (3, 30)]);
        segment[at] = None;
        assert_eq!(write_segment(&segment, false), None);
        assert_eq!(write_segment(&segment, true), None);
    }
}

#[test]
fn empty_segment_is_written_as_empty() {
    let segment: Vec<Option<Point>> = Vec::new();
    assert_eq!(write_segment(&segment, false), Some(vec![]));
    assert_eq!(write_segment(&segment, true), Some(vec![]));
    let assembly = assemble_route(&vec![segment], &vec![step(0, true)]);
    assert!(assembly.points.is_empty());
    assert_eq!(assembly.outcomes, vec![Outcome::Appended]);
}

#[test]
fn course_takes_only_features_of_that_course() {
    let features = vec![
        PathFeature { course: "10K".to_string(), paths: vec![whole(&[(9, 9)])] },
        PathFeature { course: "MCM".to_string(), paths: two_segments() },
        PathFeature { course: "mcm".to_string(), paths: vec![whole(&[(8, 8)])] },
        PathFeature { course: "MCM".to_string(), paths: vec![whole(&[(7, 7)])] },
    ];
    let instructions = vec![step(1, true), step(0, false)];
    let assembly = assemble_course(&features, "MCM", &instructions);
    assert_eq!(assembly.points, vec![(3, 3), (2, 2), (0, 0), (1, 1), (7, 7)]);
    assert_eq!(
        assembly.outcomes,
        vec![
            Outcome::Appended,
            Outcome::Appended,
            Outcome::InvalidIndex,
            Outcome::Appended,
        ]
    );
}

#[test]
fn course_without_features_is_empty() {
    let features = vec![PathFeature { course: "10K".to_string(), paths: two_segments() }];
    let assembly = assemble_course(&features, "MCM", &vec![step(0, false)]);
    assert!(assembly.points.is_empty() && assembly.outcomes.is_empty());
}

#[test]
fn instructions_in_two_lists_yield_what_one_list_yields() {
    let segments =
        vec![whole(&[(0, 0), (1, 1)]), vec![Some((2, 2)), None], whole(&[(4, 4), (5, 5)])];
    let first = vec![step(2, true), step(1, false)];
    let second = vec![step(7, false), step(0, false), step(2, false)];
    let both: Vec<Instruction> = first.iter().chain(second.iter()).copied().collect();
    let a = assemble_route(&segments, &first);
    let b = assemble_route(&segments, &second);
    let whole_run = assemble_route(&segments, &both);
    assert_eq!(whole_run.points, [a.points, b.points].concat());
    assert_eq!(whole_run.outcomes, [a.outcomes, b.outcomes].concat());
    assert_eq!(whole_run.points, vec![(5, 5), (4, 4), (0, 0), (1, 1), (4, 4), (5, 5)]);
}

#[test]
fn segment_reversed_twice_is_the_segment() {
    let segment = whole(&[(1, 10), (2, 20), (3, 30)]);
    let back = write_segment(&segment, true).unwrap();
    let again = write_segment(&back.iter().map(|p| Some(*p)).collect(), true).unwrap();
    assert_eq!(again, vec![(1, 10), (2, 20), (3, 30)]);
}
