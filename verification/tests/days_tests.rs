use intcode::day01::{compute_fuel_from_mass, recursive_compute_fuel_amount};
use intcode::day04::{
    compliant_to_decreasing_rule, compliant_to_double_rule, compliant_to_strict_group_rule,
};
use intcode::day08::{get_count_by_elements, get_final_image, get_layers_from_string};

#[test]
fn it_works() {
    assert_eq!(2 + 2, 4);
}

#[test]
fn test_basic_computer() {
    assert_eq!(intcode::computer(vec![1, 0, 0, 0, 99]), vec![2, 0, 0, 0, 99]);
    assert_eq!(intcode::computer(vec![2, 3, 0, 3, 99]), vec![2, 3, 0, 6, 99]);
}

#[test]
fn test_compute_fuel_from_mass() {
    assert_eq!(compute_fuel_from_mass(12), 2, "The fuel required must be 2");
    assert_eq!(compute_fuel_from_mass(14), 2, "The fuel required must be 2");
    assert_eq!(compute_fuel_from_mass(1969), 654, "The fuel required must be 654");
    assert_eq!(compute_fuel_from_mass(100756), 33583, "The fuel required must be 654");
}

#[test]
fn test_recursive_compute_fuel_from_mass() {
    assert_eq!(recursive_compute_fuel_amount(14), 2, "The fuel required must be 2");
    assert_eq!(recursive_compute_fuel_amount(1969), 966, "The fuel required must be 966");
    assert_eq!(recursive_compute_fuel_amount(100756), 50346, "The fuel required must be 50346");
}

#[test]
fn test_fuel_totals() {
    assert_eq!(intcode::day01::part_1(vec![12, 14, 1969]), 2 + 2 + 654);
    assert_eq!(intcode::day01::part_2(vec![14, 1969]), 2 + 966);
}

#[test]
fn test_noun_verb_patch() {
    let mem = intcode::day02::part_1(vec![1, 0, 0, 0, 99], 0, 0).unwrap();
    assert_eq!(mem.lookup(0), Some(2));
    let found = intcode::day02::part_2(vec![1, 0, 0, 0, 99], 2).unwrap();
    assert_eq!(found, Some((0, 0)));
    let missing = intcode::day02::part_2(vec![1, 0, 0, 0, 99], 1000000).unwrap();
    assert_eq!(missing, None);
}

#[test]
fn test_diagnostic_outputs() {
    assert_eq!(intcode::day05::part_1(vec![3, 0, 4, 0, 99]).unwrap(), vec![1]);
    assert_eq!(intcode::day05::part_2(vec![3, 0, 4, 0, 99]).unwrap(), vec![5]);
}

#[test]
fn test_boost_last_output() {
    assert_eq!(intcode::day09::part_1(vec![104, 42, 104, 7, 99]).unwrap(), Some(7));
    assert_eq!(intcode::day09::part_1(vec![99]).unwrap(), None);
}

#[test]
fn test_double_rule() {
    assert_eq!(true, compliant_to_double_rule("111111".to_string()));
    assert_eq!(true, compliant_to_double_rule("122345".to_string()));
    assert_eq!(false, compliant_to_double_rule("123789".to_string()));
}

#[test]
fn test_increasing_rule() {
    assert_eq!(true, compliant_to_decreasing_rule("111111".to_string()));
    assert_eq!(true, compliant_to_decreasing_rule("111123".to_string()));
    assert_eq!(true, compliant_to_decreasing_rule("135679".to_string()));
    assert_eq!(false, compliant_to_decreasing_rule("223450".to_string()));
}

#[test]
fn test_no_more_than_double() {
    assert_eq!(
        compliant_to_strict_group_rule("1".to_string(), 2),
        false,
        "not compliant to the only double rule only one '1' then end of string"
    );
    assert_eq!(
        compliant_to_strict_group_rule("11".to_string(), 2),
        true,
        "compliant to the only double rule at the end of string"
    );
    assert_eq!(
        compliant_to_strict_group_rule("111".to_string(), 2),
        false,
        "not compliant to the only double rule there is three '1' in row"
    );
    assert_eq!(
        compliant_to_strict_group_rule("1111".to_string(), 2),
        false,
        "not compliant to the only double rule there is four '1' in row"
    );
    assert_eq!(
        compliant_to_strict_group_rule("11111".to_string(), 2),
        false,
        "not compliant to the only double rule there is five '1' in row"
    );
    assert_eq!(
        compliant_to_strict_group_rule("111111".to_string(), 2),
        false,
        "not compliant to the only double rule there is six '1' in row"
    );
    assert_eq!(
        compliant_to_strict_group_rule("113311".to_string(), 2),
        true,
        "1 - compliant to rule there is a least one strict double"
    );
    assert_eq!(
        compliant_to_strict_group_rule("113334".to_string(), 2),
        true,
        "2 - compliant to rule there is a least one double, there two '1' at the beginning"
    );
    assert_eq!(
        compliant_to_strict_group_rule("123334".to_string(), 2),
        false,
        "not compliant to strict double rule, there isn't a strict double digit"
    );
    assert_eq!(
        compliant_to_strict_group_rule("112233".to_string(), 2),
        true,
        "compliant to the strict double rule, there is a double '2' in the middle of string"
    );
    assert_eq!(
        compliant_to_strict_group_rule("123444".to_string(), 2),
        false,
        "not compliant to strict double rule, there three '4' at the en "
    );
    assert_eq!(
        compliant_to_strict_group_rule("111122".to_string(), 2),
        true,
        "compliant to double rule, there is a strict double '2' a the end of string"
    );
}

#[test]
fn test_get_layers_from_string() {
    let expected = vec![
        vec!['1', '2', '3', '4', '5', '6'],
        vec!['7', '8', '9', '0', '1', '2'],
    ];
    let input = "123456789012".to_string();
    let result = get_layers_from_string(input, 3 * 2);
    assert_eq!(result, expected)
}

#[test]
fn test_get_counts_by_elements() {
    let input: Vec<char> = "102101102".chars().collect();
    let map = get_count_by_elements(input);
    let nb_2 = map.iter().find(|p| p.0 == '2').unwrap().1;
    let nb_1 = map.iter().find(|p| p.0 == '1').unwrap().1;
    let nb_0 = map.iter().find(|p| p.0 == '0').unwrap().1;
    assert_eq!(nb_2, 2);
    assert_eq!(nb_1, 4);
    assert_eq!(nb_0, 3);
}

#[test]
fn test_get_final_image() {
    let input = "0222112222120000".to_string();
    let layers = get_layers_from_string(input, 2 * 2);
    let expected = vec!['0', '1', '1', '0'];
    let result = get_final_image(layers, 2 * 2);
    assert_eq!(result, expected);
}

#[test]
fn test_best_layer_product() {
    // Two layers of 150 digits: the first has one zero, a one and two twos;
    // the second is all zeros.
    let layer1 = format!("0122{}", "3".repeat(146));
    let layer2 = "0".repeat(150);
    let input = format!("{}{}", layer1, layer2);
    assert_eq!(intcode::day08::part_1(input), 2 * 1);
}

#[test]
fn test_password_counts_in_range() {
    assert_eq!(intcode::day04::part1(), 966);
    assert_eq!(intcode::day04::part2(), 628);
}
