use wallfacer::region_names::next_region_name;

#[test]
fn numbered_names_count_up() {
    assert_eq!(next_region_name("region_1"), "region_2");
    assert_eq!(next_region_name("region_9"), "region_10");
    assert_eq!(next_region_name("region_099"), "region_100");
    assert_eq!(next_region_name("a_b_41"), "a_b_42");
    assert_eq!(next_region_name("_0"), "_1");
    assert_eq!(next_region_name("x_+5"), "x_6");
    assert_eq!(next_region_name("big_4294967294"), "big_4294967295");
}

#[test]
fn other_names_stay() {
    assert_eq!(next_region_name("region"), "region");
    assert_eq!(next_region_name("region_"), "region_");
    assert_eq!(next_region_name("region_x"), "region_x");
    assert_eq!(next_region_name("region_1_x"), "region_1_x");
    assert_eq!(next_region_name("r_-1"), "r_-1");
    assert_eq!(next_region_name("huge_99999999999"), "huge_99999999999");
    assert_eq!(next_region_name(""), "");
}
