use intcode::day03::{Command, Wire};

fn wire_from(line: &str) -> Wire {
    let commands = Command::line_to_command_list(line.to_string())
        .into_iter()
        .filter_map(|command| Command::from_string(command))
        .collect::<Vec<(i32, i32)>>();
    Wire::new(commands)
}

#[test]
fn test_direction_to_tuple() {
    assert_eq!(Some((8, 0)), Command::from_string("R8".to_string()));
    assert_eq!(Some((0, 5)), Command::from_string("U5".to_string()));
    assert_eq!(Some((-5, 0)), Command::from_string("L5".to_string()));
    assert_eq!(Some((0, -3)), Command::from_string("D3".to_string()));
}

#[test]
fn test_line_to_command_list() {
    assert_eq!(
        vec!["R8", "U5", "L5", "D3"],
        Command::line_to_command_list("R8,U5,L5,D3".to_string())
    )
}

#[test]
fn test_path_to_point() {
    let points = Wire::new(vec![(1, 0), (0, -2)]).get_points();
    assert_eq!(points, vec![(1, 0), (1, -1), (1, -2)]);

    let points3 = Wire::new(vec![(1, 0), (0, 1)]).get_points();
    assert_eq!(vec![(1, 0), (1, 1)], points3);
}

#[test]
fn test_intersection() {
    let wire1 = Wire::new(vec![(8, 0), (0, 5), (-5, 0), (0, -3)]);
    let wire2 = Wire::new(vec![(0, 7), (6, 0), (0, -4), (-4, 0)]);

    let intersections = wire1.intersect(&wire2);
    assert_eq!(intersections, vec![(6, 5), (3, 3)]);
}

#[test]
fn test_get_min_intersection_manhattan_distance() {
    let wire1 = Wire::new(vec![(8, 0), (0, 5), (-5, 0), (0, -3)]);
    let wire2 = Wire::new(vec![(0, 7), (6, 0), (0, -4), (-4, 0)]);

    assert_eq!(wire1.get_min_intersection_manhattan_distance(&wire2), 6);

    let wire1 = wire_from("R8,U5,L5,D3");
    let wire2 = wire_from("U7,R6,D4,L4");
    assert_eq!(wire1.get_min_intersection_manhattan_distance(&wire2), 6);

    let wire1 = wire_from("R75,D30,R83,U83,L12,D49,R71,U7,L72");
    let wire2 = wire_from("U62,R66,U55,R34,D71,R55,D58,R83");
    assert_eq!(wire1.get_min_intersection_manhattan_distance(&wire2), 159);

    let wire1 = wire_from("R98,U47,R26,D63,R33,U87,L62,D20,R33,U53,R51");
    let wire2 = wire_from("U98,R91,D20,R16,D67,R40,U7,R15,U6,R7");
    assert_eq!(wire1.get_min_intersection_manhattan_distance(&wire2), 135);
}

#[test]
fn test_closest_crossing_of_last_two_wires() {
    let wire2 = Wire::new(vec![(0, 7), (6, 0), (0, -4), (-4, 0)]);
    let wire1 = Wire::new(vec![(8, 0), (0, 5), (-5, 0), (0, -3)]);
    assert_eq!(intcode::day03::part_1(vec![wire2, wire1]), 6);
}
