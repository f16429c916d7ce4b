use rankless::type_names::clean_name;

fn clean(s: &str) -> String {
    clean_name(s).unwrap()
}

#[test]
fn alloc_paths_come_down_to_their_last_element() {
    assert_eq!(clean("alloc::vec::Vec<u32>"), "Vec<u32>");
    assert_eq!(clean("alloc::string::String"), "String");
}

#[test]
fn own_package_paths_come_down_to_their_last_element() {
    assert_eq!(clean("dmove::BigId"), "BigId");
}

#[test]
fn std_paths_stay_whole() {
    assert_eq!(clean("std::string::String"), "std::string::String");
}

#[test]
fn other_paths_are_rooted_at_crate_inside_arguments_too() {
    assert_eq!(clean("a::b::C<d::e>"), "crate::b::C<crate::e>");
    assert_eq!(clean("x::Pair<alloc::vec::Vec<u8>>"), "crate::Pair<Vec<u8>>");
}

#[test]
fn single_names_and_slices_stay() {
    assert_eq!(clean("u64"), "u64");
    assert_eq!(clean("[u8]"), "[u8]");
    assert_eq!(clean("[alloc::string::String]"), "[String]");
}

#[test]
fn unclosed_brackets_have_no_clean_name() {
    assert_eq!(clean_name("[u8"), None);
    assert_eq!(clean_name("a::Vec<u8"), None);
}
