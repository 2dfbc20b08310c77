use bschema::util::{common_pattern, local_name};

#[test]
fn local_name_hash_and_slash() {
    assert_eq!(local_name("http://example.com#Foo"), "Foo");
    assert_eq!(local_name("http://example.com/Foo"), "Foo");
    assert_eq!(local_name("Foo"), "Foo");
}

#[test]
fn common_pattern_prefix_suffix() {
    assert_eq!(common_pattern(&["urn:ex#sensor_1", "urn:ex#sensor_2"]), "urn:ex#sensor_");
    assert_eq!(common_pattern(&["abc"]), "abc");
}

#[test]
fn local_name_strips_angle_brackets() {
    assert_eq!(local_name("<http://example.com/a#B>"), "B");
    assert_eq!(local_name("http://example.com/dir/"), "");
}

#[test]
fn common_pattern_keeps_common_suffix() {
    assert_eq!(common_pattern(&["urn:ex#ahu_1_sensor", "urn:ex#ahu_2_sensor"]), "urn:ex#ahu__sensor");
    assert_eq!(common_pattern(&[]), "");
    assert_eq!(common_pattern(&["same", "same"]), "same");
}

#[test]
fn common_pattern_is_trimmed_to_the_shortest_string() {
    assert_eq!(common_pattern(&["abab", "ab"]), "ab");
    assert_eq!(common_pattern(&["ab", "abab"]), "ab");
}

#[test]
fn common_pattern_is_the_longest_shared_prefix_and_a_shared_suffix() {
    assert_eq!(common_pattern(&["abcXYZ", "abdXYZ", "abeXYZ"]), "abXYZ");
    assert_eq!(common_pattern(&["pre_one", "pre_two"]), "pre_");
}
