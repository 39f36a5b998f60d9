use genre_graph::community::{connected_components, genre_connectivity_map};
use genre_graph::graph::{EdgeWeight, Graph};
use genre_graph::loader::{parse_table, LoadError};
use genre_graph::text::{parse_genres, parse_length, parse_row, strip, Strip};

const TABLE: &str = "artist,genres,length\n\
Alpha,\"['Rock', 'Pop']\",1000\n\
 Beta ,\"['Rock']\",500.75\n\
Gamma,['Jazz'],2000\n\
,\"['Rock']\",100\n\
Delta,\"['Rock']\",0\n\
Eps,\"['Rock']\",abc\n";

#[test]
fn loads_the_rows_after_the_header() {
    let g = Graph::load_from_csv(TABLE.as_bytes(), EdgeWeight::SharedCount).unwrap();
    assert_eq!(g.node_count(), 3);
    assert_eq!(g.node_id("Alpha"), Some(0));
    assert_eq!(g.node_id("Beta"), Some(1));
    assert_eq!(g.node_id("Gamma"), Some(2));
    assert_eq!(g.node_id("artist"), None);
    assert_eq!(g.length_of(1), Some(500));
    assert_eq!(g.neighbors(0).unwrap(), &vec![(1, 1)]);
    assert_eq!(g.genre_id("Rock"), Some(0));
    assert_eq!(g.genre_id("Pop"), Some(1));
    assert_eq!(g.genre_id("Jazz"), Some(2));
}

#[test]
fn loaded_table_links_rock_and_pop_only() {
    let g = Graph::load_from_csv(TABLE.as_bytes(), EdgeWeight::SharedCount).unwrap();
    let links = genre_connectivity_map(&g);
    assert_eq!(links, vec![vec![1], vec![0], vec![]]);
    let found = connected_components(&g);
    assert_eq!(found.ids, vec![Some(0), Some(0), Some(1)]);
}

#[test]
fn rows_of_unequal_length_are_refused() {
    let r = Graph::load_from_csv(b"artist,genres,length\nAlpha,x\n", EdgeWeight::SharedCount);
    assert!(matches!(r, Err(LoadError::Malformed)));
}

#[test]
fn text_that_is_not_utf8_is_refused() {
    let r = Graph::load_from_csv(b"a,b,c\n\xff\xfe,x,1\n", EdgeWeight::SharedCount);
    assert!(matches!(r, Err(LoadError::Malformed)));
}

#[test]
fn header_alone_gives_the_empty_graph() {
    let g = Graph::load_from_csv(b"artist,genres,length\n", EdgeWeight::CategoryAttribute).unwrap();
    assert_eq!(g.node_count(), 0);
    let g = Graph::load_from_csv(b"", EdgeWeight::SharedCount).unwrap();
    assert_eq!(g.node_count(), 0);
}

#[test]
fn table_is_read_row_by_row() {
    let table = vec![
        vec![" A ".to_string(), " ['x','y'] ".to_string(), "12".to_string()],
        vec!["B".to_string()],
        vec![],
    ];
    let records = parse_table(&table);
    assert_eq!(records.len(), 3);
    assert_eq!(records[0].id, "A");
    assert_eq!(records[0].genres, vec!["x".to_string(), "y".to_string()]);
    assert_eq!(records[0].length, 12);
    assert_eq!(records[1].id, "B");
    assert!(records[1].genres.is_empty());
    assert_eq!(records[1].length, 0);
    assert_eq!(records[2].id, "");
    let g = Graph::from_table(&table, EdgeWeight::SharedCount);
    assert_eq!(g.node_count(), 1);
}

#[test]
fn row_fields_are_trimmed_but_the_attribute_is_not() {
    let row = vec!["\tA\u{a0}".to_string(), "['x']".to_string(), " 12".to_string()];
    let record = parse_row(&row);
    assert_eq!(record.id, "A");
    assert_eq!(record.length, 0);
}

#[test]
fn strip_takes_off_both_ends_only() {
    assert_eq!(strip("  a b \n", Strip::Space), "a b");
    assert_eq!(strip("\u{3000}x\u{2003}", Strip::Space), "x");
    assert_eq!(strip("   ", Strip::Space), "");
    assert_eq!(strip("", Strip::Space), "");
    assert_eq!(strip("[[a]b]", Strip::Brackets), "a]b");
    assert_eq!(strip("''it's''", Strip::Quote), "it's");
    assert_eq!(strip("é'", Strip::Quote), "é");
}

#[test]
fn genre_list_is_split_at_commas() {
    assert_eq!(parse_genres("['Rock', 'Pop']"), vec!["Rock".to_string(), "Pop".to_string()]);
    assert_eq!(parse_genres("[]"), Vec::<String>::new());
    assert_eq!(parse_genres(""), Vec::<String>::new());
    assert_eq!(parse_genres("Rock"), vec!["Rock".to_string()]);
    assert_eq!(parse_genres("['a',, 'b',]"), vec!["a".to_string(), "b".to_string()]);
    assert_eq!(parse_genres("[' a ','']"), vec![" a ".to_string()]);
    assert_eq!(parse_genres("['hip hop','r&b']"), vec!["hip hop".to_string(), "r&b".to_string()]);
}

#[test]
fn attribute_is_the_whole_part_of_a_decimal_number() {
    assert_eq!(parse_length("1000"), 1000);
    assert_eq!(parse_length("500.75"), 500);
    assert_eq!(parse_length("5."), 5);
    assert_eq!(parse_length("007"), 7);
    assert_eq!(parse_length("+5"), 5);
    assert_eq!(parse_length("+12.50"), 12);
    assert_eq!(parse_length("18446744073709551615"), u64::MAX);
}

#[test]
fn positive_number_below_one_counts_as_one() {
    assert_eq!(parse_length("0.5"), 1);
    assert_eq!(parse_length("0.9"), 1);
    assert_eq!(parse_length(".5"), 1);
    assert_eq!(parse_length("+.001"), 1);
    assert_eq!(parse_length("000.0000000000000000000000001"), 1);
}

#[test]
fn number_too_large_counts_as_the_largest_integer() {
    assert_eq!(parse_length("18446744073709551616"), u64::MAX);
    assert_eq!(parse_length("99999999999999999999999.5"), u64::MAX);
}

#[test]
fn zero_is_zero_however_written() {
    assert_eq!(parse_length("0"), 0);
    assert_eq!(parse_length("0.0"), 0);
    assert_eq!(parse_length("+0.00"), 0);
    assert_eq!(parse_length(".0"), 0);
    assert_eq!(parse_length("0."), 0);
}

#[test]
fn attribute_that_is_no_number_is_zero() {
    assert_eq!(parse_length(""), 0);
    assert_eq!(parse_length("."), 0);
    assert_eq!(parse_length("+"), 0);
    assert_eq!(parse_length("+."), 0);
    assert_eq!(parse_length("abc"), 0);
    assert_eq!(parse_length("1.2.3"), 0);
    assert_eq!(parse_length("-4"), 0);
    assert_eq!(parse_length("++4"), 0);
    assert_eq!(parse_length("4+"), 0);
    assert_eq!(parse_length(" 10"), 0);
    assert_eq!(parse_length("12x"), 0);
    assert_eq!(parse_length("1.x"), 0);
}

#[test]
fn row_with_a_positive_attribute_below_one_is_kept() {
    let data = b"artist,genres,length\nAlpha,['Rock'],0.5\nBeta,['Rock'],0.0\nGamma,['Rock'],+3\n";
    let g = Graph::load_from_csv(data, EdgeWeight::SharedCount).unwrap();
    assert_eq!(g.node_count(), 2);
    assert_eq!(g.node_id("Alpha"), Some(0));
    assert_eq!(g.length_of(0), Some(1));
    assert_eq!(g.node_id("Beta"), None);
    assert_eq!(g.length_of(1), Some(3));
}

#[test]
fn exponent_moves_the_point() {
    assert_eq!(parse_length("1e3"), 1000);
    assert_eq!(parse_length("1E3"), 1000);
    assert_eq!(parse_length("+1e+3"), 1000);
    assert_eq!(parse_length("1.5e2"), 150);
    assert_eq!(parse_length("5.e1"), 50);
    assert_eq!(parse_length(".5e1"), 5);
    assert_eq!(parse_length("123456e-3"), 123);
    assert_eq!(parse_length("25e-1"), 2);
    assert_eq!(parse_length("0.000012e6"), 12);
    assert_eq!(parse_length("1e19"), 10_000_000_000_000_000_000);
    assert_eq!(parse_length("18446744073709551615e0"), u64::MAX);
    assert_eq!(parse_length("0018446744073709551615000e-3"), u64::MAX);
}

#[test]
fn exponent_keeps_a_positive_number_positive() {
    assert_eq!(parse_length("12.5e-2"), 1);
    assert_eq!(parse_length("1e-3"), 1);
    assert_eq!(parse_length("0.00001e5"), 1);
    assert_eq!(parse_length("1e-99999999999999999999999999999999999999999999"), 1);
    assert_eq!(parse_length("2e19"), u64::MAX);
    assert_eq!(parse_length("1e20"), u64::MAX);
    assert_eq!(parse_length("0.1e99999999999999999999999999999999999999999999"), u64::MAX);
    assert_eq!(parse_length("0e5"), 0);
    assert_eq!(parse_length("0.0e-5"), 0);
    assert_eq!(parse_length("0e99999999999999999999999999999999999999999999"), 0);
}

#[test]
fn exponent_that_is_not_well_formed_is_no_number() {
    assert_eq!(parse_length("1e"), 0);
    assert_eq!(parse_length("1e+"), 0);
    assert_eq!(parse_length("e5"), 0);
    assert_eq!(parse_length(".e5"), 0);
    assert_eq!(parse_length("1e5.0"), 0);
    assert_eq!(parse_length("1e+-3"), 0);
    assert_eq!(parse_length("1e3e3"), 0);
    assert_eq!(parse_length("1 e3"), 0);
    assert_eq!(parse_length("1e3 "), 0);
    assert_eq!(parse_length("1x3"), 0);
    assert_eq!(parse_length("NaN"), 0);
    assert_eq!(parse_length("-1e3"), 0);
    assert_eq!(parse_length("-inf"), 0);
    assert_eq!(parse_length("infinit"), 0);
    assert_eq!(parse_length("inf "), 0);
}

#[test]
fn infinity_counts_as_the_largest_integer() {
    assert_eq!(parse_length("inf"), u64::MAX);
    assert_eq!(parse_length("+inf"), u64::MAX);
    assert_eq!(parse_length("INF"), u64::MAX);
    assert_eq!(parse_length("Infinity"), u64::MAX);
    assert_eq!(parse_length("+iNfInItY"), u64::MAX);
}
