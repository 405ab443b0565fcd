use reddit_place_2022::access::Access;
use reddit_place_2022::canvas::Canvas;
use reddit_place_2022::colour::create_colour_map;
use reddit_place_2022::count::{count_access_in_bounds, is_access_in_bounds};
use reddit_place_2022::engine::{
    Bounds, ConfigError, Engine, EngineError, Phase, Step, Summary,
};
use reddit_place_2022::error::FormatError;

const WHITE: [u8; 3] = [255, 255, 255];
const C1: [u8; 3] = [0xff, 0x45, 0x00];
const C2: [u8; 3] = [0x00, 0xa3, 0x68];

fn bounds(min_x: u32, min_y: u32, max_x: u32, max_y: u32) -> Bounds {
    Bounds { min_x, min_y, max_x, max_y }
}

fn engine(area: Bounds, spacing: u32, agent: Option<&str>) -> Engine {
    let palette = create_colour_map(&["#FF4500", "#00A368", "#FFFFFF"]).unwrap();
    Engine::new(area, spacing, agent.map(String::from), palette, WHITE).unwrap()
}

fn line(second: u32, agent: &str, colour: &str, place: &str) -> Vec<u8> {
    format!("2022-04-04 00:00:{:02}.000 UTC,{},{},\"{}\"", second, agent, colour, place).into_bytes()
}

#[test]
fn the_later_write_wins_and_the_recurrence_is_counted() {
    let mut run = engine(bounds(0, 0, 10, 10), 100, Some("A"));
    assert_eq!(run.step(line(1, "A", "#FF4500", "0,0")), Ok(Step::Snapshot(0)));
    assert_eq!(run.canvas().pixel(0, 0), Some(C1));
    assert_eq!(run.step(line(2, "A", "#00A368", "0,0")), Ok(Step::Painted));
    assert_eq!(run.canvas().pixel(0, 0), Some(C2));
    assert_eq!(run.finish(), Summary { accepted: 2, duplicates: 1 });
}

#[test]
fn without_an_agent_no_duplicates_are_tracked() {
    let mut run = engine(bounds(0, 0, 10, 10), 100, None);
    assert_eq!(run.step(line(1, "A", "#FF4500", "0,0")), Ok(Step::Snapshot(0)));
    assert_eq!(run.step(line(2, "B", "#00A368", "0,0")), Ok(Step::Painted));
    assert_eq!(run.canvas().pixel(0, 0), Some(C2));
    assert_eq!(run.finish(), Summary { accepted: 2, duplicates: 0 });
}

#[test]
fn other_agents_are_filtered_out() {
    let mut run = engine(bounds(0, 0, 10, 10), 100, Some("A"));
    assert_eq!(run.step(line(1, "B", "#FF4500", "1,1")), Ok(Step::Skipped));
    assert_eq!(run.step(line(2, "AA", "#FF4500", "1,1")), Ok(Step::Skipped));
    assert_eq!(run.step(line(3, "A", "#00A368", "1,1")), Ok(Step::Snapshot(0)));
    assert_eq!(run.step(line(4, "A", "#00A368", "2,1")), Ok(Step::Painted));
    assert_eq!(run.step(line(5, "A", "#FF4500", "1,1")), Ok(Step::Painted));
    assert_eq!(run.step(line(6, "A", "#FF4500", "1,1")), Ok(Step::Painted));
    assert_eq!(run.canvas().pixel(1, 1), Some(C1));
    assert_eq!(run.canvas().pixel(2, 1), Some(C2));
    assert_eq!(run.accepted(), 4);
    assert_eq!(run.duplicates(), 2);
}

#[test]
fn one_record_inside_and_one_outside_count_one() {
    let area = bounds(0, 0, 10, 10);
    let lines = vec![line(1, "A", "#FF4500", "3,4"), line(2, "A", "#FF4500", "10,4")];
    assert_eq!(count_access_in_bounds(&lines, &area), Ok(1));
    let mut run = engine(area, 100, None);
    for each in lines {
        run.step(each).unwrap();
    }
    assert_eq!(run.accepted(), 1);
}

#[test]
fn bounds_end_before_their_greatest_corner() {
    let area = bounds(2, 3, 5, 7);
    for (x, y, inside) in [(2, 3, true), (4, 6, true), (5, 6, false), (4, 7, false), (1, 3, false), (2, 2, false), (5, 7, false)] {
        assert_eq!(area.includes(x, y), inside, "{x},{y}");
        let place = format!("{},{}", x, y);
        assert_eq!(is_access_in_bounds(&line(0, "A", "#FF4500", &place), &area), Ok(inside));
    }
}

#[test]
fn rectangles_and_bad_lines_in_a_count() {
    let area = bounds(0, 0, 10, 10);
    assert_eq!(is_access_in_bounds(&line(0, "A", "#FF4500", "1,1,2,2"), &area), Ok(false));
    assert_eq!(is_access_in_bounds(b"a,b,c", &area), Err(FormatError::DelimiterCount));
    assert_eq!(is_access_in_bounds(b"a,b,c,\"x,1\"", &area), Err(FormatError::Number));
    let lines = vec![
        line(1, "A", "#FF4500", "3,4"),
        b"a,b,c,\"x,1\"".to_vec(),
        b"a,b".to_vec(),
    ];
    assert_eq!(count_access_in_bounds(&lines, &area), Err(FormatError::Number));
    assert_eq!(count_access_in_bounds(&vec![], &area), Ok(0));
}

#[test]
fn a_snapshot_is_due_at_every_multiple_of_the_spacing() {
    let mut run = engine(bounds(0, 0, 10, 10), 2, None);
    let mut steps = Vec::new();
    for i in 0..5 {
        steps.push(run.step(line(i, "A", "#FF4500", "1,1")).unwrap());
    }
    assert_eq!(
        steps,
        vec![Step::Snapshot(0), Step::Painted, Step::Snapshot(1), Step::Painted, Step::Snapshot(2)]
    );
    assert_eq!(steps.iter().filter(|step| matches!(step, Step::Snapshot(_))).count(), 3);
}

#[test]
fn skipped_records_do_not_move_the_cadence() {
    let mut run = engine(bounds(0, 0, 10, 10), 2, None);
    assert_eq!(run.step(line(0, "A", "#FF4500", "50,50")), Ok(Step::Skipped));
    assert_eq!(run.step(line(1, "A", "#FF4500", "1,1,2,2")), Ok(Step::Skipped));
    assert_eq!(run.step(line(2, "A", "#FF4500", "1,1")), Ok(Step::Snapshot(0)));
    assert_eq!(run.step(line(3, "A", "#FF4500", "50,50")), Ok(Step::Skipped));
    assert_eq!(run.step(line(4, "A", "#FF4500", "1,1")), Ok(Step::Painted));
    assert_eq!(run.step(line(5, "A", "#FF4500", "1,1")), Ok(Step::Snapshot(1)));
    assert_eq!(run.accepted(), 3);
}

#[test]
fn pixels_are_painted_relative_to_the_bounds() {
    let mut run = engine(bounds(448, 646, 599, 683), 100, None);
    assert_eq!(run.canvas().width(), 151);
    assert_eq!(run.canvas().height(), 37);
    run.step(line(0, "A", "#FF4500", "448,646")).unwrap();
    run.step(line(1, "A", "#00A368", "598,682")).unwrap();
    assert_eq!(run.step(line(2, "A", "#00A368", "599,682")), Ok(Step::Skipped));
    assert_eq!(run.step(line(3, "A", "#00A368", "447,646")), Ok(Step::Skipped));
    assert_eq!(run.canvas().pixel(0, 0), Some(C1));
    assert_eq!(run.canvas().pixel(150, 36), Some(C2));
    assert_eq!(run.canvas().pixel(1, 0), Some(WHITE));
    assert_eq!(run.canvas().pixel(151, 0), None);
}

#[test]
fn a_run_passes_through_its_phases() {
    let mut run = engine(bounds(0, 0, 10, 10), 1, None);
    assert_eq!(run.phase(), Phase::Idle);
    run.step(line(0, "A", "#FF4500", "50,50")).unwrap();
    assert_eq!(run.phase(), Phase::Streaming);
    assert_eq!(run.finish(), Summary { accepted: 0, duplicates: 0 });
    assert_eq!(run.phase(), Phase::Done);
    assert_eq!(run.step(line(1, "A", "#FF4500", "1,1")), Err(EngineError::Finished));
    assert_eq!(run.canvas().pixel(1, 1), Some(WHITE));
    assert_eq!(run.finish(), Summary { accepted: 0, duplicates: 0 });
}

#[test]
fn a_malformed_line_ends_the_run() {
    let mut run = engine(bounds(0, 0, 10, 10), 1, None);
    run.step(line(0, "A", "#FF4500", "1,1")).unwrap();
    assert_eq!(run.step(b"a,b,c".to_vec()), Err(EngineError::Format(FormatError::DelimiterCount)));
    assert_eq!(run.phase(), Phase::Done);
    assert_eq!(run.step(line(1, "A", "#00A368", "1,1")), Err(EngineError::Finished));
    assert_eq!(run.canvas().pixel(1, 1), Some(C1));
    assert_eq!(run.accepted(), 1);

    let mut other = engine(bounds(0, 0, 10, 10), 1, None);
    assert_eq!(
        other.step(line(0, "A", "#FF4500", "1,x")),
        Err(EngineError::Format(FormatError::Number))
    );
    let mut third = engine(bounds(0, 0, 10, 10), 1, None);
    assert_eq!(third.step(vec![b',', 0xff]), Err(EngineError::Format(FormatError::Encoding)));
}

#[test]
fn an_unknown_colour_ends_the_run_only_where_it_would_be_painted() {
    let mut run = engine(bounds(0, 0, 10, 10), 1, None);
    assert_eq!(run.step(line(0, "A", "#123456", "50,50")), Ok(Step::Skipped));
    assert_eq!(run.step(line(1, "A", "#123456", "1,1")), Err(EngineError::UnknownColour));
    assert_eq!(run.phase(), Phase::Done);
    assert_eq!(run.canvas().pixel(1, 1), Some(WHITE));
}

#[test]
fn records_are_applied_as_lines_are() {
    let mut run = engine(bounds(0, 0, 10, 10), 3, None);
    let record = Access::new(line(0, "A", "#FF4500", "9,9")).unwrap();
    assert_eq!(run.apply(&record), Ok(Step::Snapshot(0)));
    assert_eq!(run.apply(&record), Ok(Step::Painted));
    assert_eq!(run.canvas().pixel(9, 9), Some(C1));
}

#[test]
fn configurations_that_cannot_run_are_refused() {
    let palette = || create_colour_map(&["#FF4500"]).unwrap();
    assert_eq!(
        Engine::new(bounds(0, 0, 10, 10), 0, None, palette(), WHITE).err(),
        Some(ConfigError::ZeroSpacing)
    );
    assert_eq!(
        Engine::new(bounds(5, 0, 4, 10), 1, None, palette(), WHITE).err(),
        Some(ConfigError::InvertedBounds)
    );
    assert_eq!(
        Engine::new(bounds(0, 5, 10, 4), 1, None, palette(), WHITE).err(),
        Some(ConfigError::InvertedBounds)
    );
    assert_eq!(
        Engine::new(bounds(0, 0, u32::MAX, u32::MAX), 1, None, palette(), WHITE).err(),
        Some(ConfigError::TooLarge)
    );
    assert!(Engine::new(bounds(3, 3, 3, 3), 1, None, palette(), WHITE).is_ok());
}

#[test]
fn a_canvas_starts_in_one_colour_and_takes_writes() {
    let mut canvas = Canvas::new(3, 2, [9, 8, 7]).unwrap();
    assert_eq!((canvas.width(), canvas.height()), (3, 2));
    assert_eq!(canvas.pixel(2, 1), Some([9, 8, 7]));
    assert_eq!(canvas.pixel(3, 1), None);
    assert_eq!(canvas.pixel(2, 2), None);
    assert!(canvas.paint(1, 0, [1, 2, 3]));
    assert!(canvas.paint(2, 1, [4, 5, 6]));
    assert!(!canvas.paint(3, 0, [0, 0, 0]));
    assert!(!canvas.paint(0, 2, [0, 0, 0]));
    assert_eq!(canvas.pixel(1, 0), Some([1, 2, 3]));
    assert_eq!(canvas.pixel(0, 0), Some([9, 8, 7]));
    assert_eq!(
        canvas.samples(),
        vec![9, 8, 7, 1, 2, 3, 9, 8, 7, 9, 8, 7, 9, 8, 7, 4, 5, 6]
    );
}

#[test]
fn a_canvas_too_large_to_allocate_is_refused() {
    assert!(Canvas::new(u32::MAX, u32::MAX, WHITE).is_none());
    assert!(Canvas::new(0, 0, WHITE).is_some());
    assert!(Canvas::new(0, u32::MAX, WHITE).is_some());
}
