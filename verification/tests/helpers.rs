use rankless::common::{
    code_path, field_id_parse, oa_id_parse, oa_id_parse_opt, oa_id_parse_res, parse_u64,
    short_string_to_u64, IntParseError,
};
use rankless::naming::{camel_case, get_uscale};
use rankless::reverse_prefixed_n;
use rankless::var_size::{VarBox, VattArrPair};
use rankless::years::{inc_year, possible_year_filters, WorkPeriods, YearInterface, MAX_YEAR, MIN_YEAR};
use rankless::common::SourceArea;
use rankless::links::get_inverted_multi;
use rankless::metrics::{FINAL_YEAR, START_YEAR};

#[test]
fn camel_case_drops_breaks_and_raises_word_starts() {
    assert_eq!(camel_case("works_count"), "WorksCount");
    assert_eq!(camel_case("a-b_c1d"), "ABCD");
    assert_eq!(camel_case("top3_journal"), "TopJournal");
    assert_eq!(camel_case(""), "");
    assert_eq!(camel_case("already"), "Already");
}

#[test]
fn uscale_is_the_smallest_type_that_holds() {
    assert_eq!(get_uscale(0), "u8");
    assert_eq!(get_uscale(255), "u8");
    assert_eq!(get_uscale(256), "u16");
    assert_eq!(get_uscale(65535), "u16");
    assert_eq!(get_uscale(65536), "u32");
    assert_eq!(get_uscale(4_000_000_000), "u32");
}

#[test]
fn prefixed_count_splits_flag_and_count() {
    assert_eq!(reverse_prefixed_n(7), (true, 3));
    assert_eq!(reverse_prefixed_n(8), (false, 4));
    assert_eq!(reverse_prefixed_n(0), (false, 0));
}

#[test]
fn openalex_ids_parse_their_number() {
    let id = "https://openalex.org/W2741809807";
    assert_eq!(oa_id_parse(id), 2741809807);
    assert_eq!(oa_id_parse_opt(id), Some(2741809807));
    assert_eq!(oa_id_parse_res("https://openalex.org/W"), Err(IntParseError::Empty));
    assert_eq!(
        oa_id_parse_res("https://openalex.org/W12x"),
        Err(IntParseError::InvalidDigit)
    );
    assert_eq!(oa_id_parse_opt("https://openalex.org/W12x"), None);
    assert_eq!(
        oa_id_parse_res("https://openalex.org/W99999999999999999999"),
        Err(IntParseError::PosOverflow)
    );
}

#[test]
fn u64_text_parses_like_std() {
    assert_eq!(parse_u64(b"0"), Ok(0));
    assert_eq!(parse_u64(b"+42"), Ok(42));
    assert_eq!(parse_u64(b"18446744073709551615"), Ok(u64::MAX));
    assert_eq!(parse_u64(b"18446744073709551616"), Err(IntParseError::PosOverflow));
    assert_eq!(parse_u64(b""), Err(IntParseError::Empty));
    assert_eq!(parse_u64(b"+"), Err(IntParseError::InvalidDigit));
    assert_eq!(parse_u64(b"-1"), Err(IntParseError::InvalidDigit));
    assert_eq!(parse_u64(b"12a99999999999999999999"), Err(IntParseError::InvalidDigit));
    assert_eq!(parse_u64(b"99999999999999999999x"), Err(IntParseError::PosOverflow));
}

#[test]
fn field_ids_parse_after_the_last_slash() {
    assert_eq!(field_id_parse("https://openalex.org/fields/27"), 27);
    assert_eq!(field_id_parse("1203"), 1203);
}

#[test]
fn short_strings_read_little_endian() {
    assert_eq!(short_string_to_u64(""), 0);
    assert_eq!(short_string_to_u64("a"), 97);
    assert_eq!(short_string_to_u64("ab"), 97 + 98 * 256);
    assert_eq!(
        short_string_to_u64("abcdefghij"),
        u64::from_le_bytes(*b"abcdefgh")
    );
}

#[test]
fn code_paths_land_in_gen() {
    assert_eq!(code_path("derive_links1"), "rankless_rs/src/gen/derive_links1.rs");
}

#[test]
fn year_numbers_round_trip() {
    assert_eq!(YearInterface::reverse(0), 1950);
    assert_eq!(YearInterface::parse(2024), 74);
    assert_eq!(YearInterface::reverse(YearInterface::parse(2001)), 2001);
    let r = YearInterface::iter();
    assert_eq!(r.start, 0);
    assert_eq!(r.end, 77);
    let f = possible_year_filters();
    assert_eq!(f.len(), 12);
    assert_eq!(f[0], 1950);
    assert_eq!(f[11], 2024);
}

#[test]
fn flat_records_give_back_each_box() {
    let boxes = VarBox(vec![vec![1u32, 2, 3], vec![], vec![4, 5]]);
    let pair = VattArrPair::from_boxes(boxes);
    assert_eq!(pair.arr, vec![1, 2, 3, 4, 5]);
    assert_eq!(pair.get(&0), Some(&[1u32, 2, 3][..]));
    assert_eq!(pair.get(&1), Some(&[][..]));
    assert_eq!(pair.get(&2), Some(&[4u32, 5][..]));
    assert_eq!(pair.get(&3), None);
    let empty: VattArrPair<u32> = VattArrPair::empty();
    assert_eq!(empty.get(&0), None);
}

#[test]
fn work_periods_follow_the_year_filters() {
    assert_eq!(WorkPeriods::from_year(1900), 0);
    assert_eq!(WorkPeriods::from_year(1950), 0);
    assert_eq!(WorkPeriods::from_year(1969), 0);
    assert_eq!(WorkPeriods::from_year(1970), 1);
    assert_eq!(WorkPeriods::from_year(2004), 3);
    assert_eq!(WorkPeriods::from_year(2020), 7);
    assert_eq!(WorkPeriods::from_year(2023), 10);
    assert_eq!(WorkPeriods::from_year(2030), 11);
}

#[test]
fn an_era_counts_its_own_years() {
    assert_eq!(MAX_YEAR, (FINAL_YEAR - START_YEAR) as usize);
    assert_eq!(MIN_YEAR, MAX_YEAR - 11 + 1);
    let mut era = [0u32; 11];
    inc_year(&mut era, 66);
    inc_year(&mut era, 66);
    inc_year(&mut era, 76);
    inc_year(&mut era, 65);
    inc_year(&mut era, 77);
    assert_eq!(era, [2, 0, 0, 0, 0, 0, 0, 0, 0, 0, 1]);
}

#[test]
fn area_ids_read_the_first_eight_bytes() {
    let a = SourceArea { id: None, area: Some("physics and more".to_string()) };
    assert_eq!(a.raw_area_id(), u64::from_le_bytes(*b"physics "));
    let b = SourceArea { id: Some("S1".to_string()), area: None };
    assert_eq!(b.raw_area_id(), 0);
}

#[test]
fn inverted_links_list_sources_per_target() {
    let links = vec![vec![1u32, 2], vec![2, 2, 0], vec![], vec![1]];
    let inv = get_inverted_multi(&links, 4, false);
    assert_eq!(inv, vec![vec![1u32], vec![0, 3], vec![0, 1, 1], vec![]]);
    let inv = get_inverted_multi(&links, 3, true);
    assert_eq!(inv, vec![vec![], vec![0u32, 3], vec![0, 1, 1]]);
}
