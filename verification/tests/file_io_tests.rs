use holdem_sim::file_io::{number_to_string, FileIO, ReadError};
use holdem_sim::stats::{iterations_of, updated_totals, HandStats};

fn text(value: &str) -> String {
    value.to_string()
}

#[test]
fn file_keeps_its_path() {
    let file = FileIO::new(text("./output_8_players.csv"));
    assert_eq!(file.file_path(), "./output_8_players.csv");
}

#[test]
fn numbers_are_written_in_base_ten() {
    assert_eq!(number_to_string(0), "0");
    assert_eq!(number_to_string(7), "7");
    assert_eq!(number_to_string(10), "10");
    assert_eq!(number_to_string(905), "905");
    assert_eq!(number_to_string(123456789), "123456789");
    assert_eq!(number_to_string(u32::MAX), "4294967295");
}

#[test]
fn numbers_are_written_like_std_writes_them() {
    let mut n: u32 = 1;
    for _ in 0..60 {
        assert_eq!(number_to_string(n), n.to_string());
        assert_eq!(number_to_string(n - 1), (n - 1).to_string());
        n = n.wrapping_mul(7).wrapping_add(3);
        if n == 0 {
            n = 1;
        }
    }
}

#[test]
fn array_to_string_joins_with_commas() {
    assert_eq!(FileIO::array_to_string(&[12, 3]), "12,3");
    assert_eq!(FileIO::array_to_string(&[0]), "0");
    assert_eq!(FileIO::array_to_string(&[]), "");
    assert_eq!(FileIO::array_to_string(&[1, 20, 300, 4000]), "1,20,300,4000");
    assert_eq!(FileIO::array_to_string(&[u32::MAX, 0]), "4294967295,0");
}

#[test]
fn record_line_is_label_and_counts() {
    assert_eq!(FileIO::record_line("A | K Suited", &[12, 3]), "A | K Suited,12,3");
    assert_eq!(
        FileIO::record_line("Ace of Spades | Ace of Hearts", &[1, 0]),
        "Ace of Spades | Ace of Hearts,1,0"
    );
}

#[test]
fn totals_are_the_first_two_numbers() {
    assert_eq!(FileIO::parse_total_data_from_str("1000,169"), Some([1000, 169]));
    assert_eq!(FileIO::parse_total_data_from_str(" 1000 , 169 "), Some([1000, 169]));
    assert_eq!(FileIO::parse_total_data_from_str("1000,169,5"), Some([1000, 169]));
    assert_eq!(FileIO::parse_total_data_from_str("0,0"), Some([0, 0]));
    assert_eq!(
        FileIO::parse_total_data_from_str("4294967295,4294967295"),
        Some([u32::MAX, u32::MAX])
    );
}

#[test]
fn totals_pass_over_fields_that_are_no_numbers() {
    assert_eq!(FileIO::parse_total_data_from_str("x,1000,,169"), Some([1000, 169]));
    assert_eq!(FileIO::parse_total_data_from_str("-4,8,1 2,15"), Some([8, 15]));
    assert_eq!(FileIO::parse_total_data_from_str("4294967296,7,8"), Some([7, 8]));
    assert_eq!(FileIO::parse_total_data_from_str("+5,+6"), Some([5, 6]));
    assert_eq!(FileIO::parse_total_data_from_str("007,08"), Some([7, 8]));
}

#[test]
fn totals_need_two_numbers() {
    assert_eq!(FileIO::parse_total_data_from_str(""), None);
    assert_eq!(FileIO::parse_total_data_from_str("1000"), None);
    assert_eq!(FileIO::parse_total_data_from_str("1000,"), None);
    assert_eq!(FileIO::parse_total_data_from_str("a,b,c"), None);
    assert_eq!(FileIO::parse_total_data_from_str("+,1"), None);
    assert_eq!(FileIO::parse_total_data_from_str("1.5,2"), None);
}

#[test]
fn data_is_label_and_two_counts() {
    assert_eq!(
        FileIO::parse_data_from_str("A | K Suited,12,3"),
        Some((text("A | K Suited"), [12, 3]))
    );
    assert_eq!(
        FileIO::parse_data_from_str("  10 | 9 Off Suit , 7 ,\t0 "),
        Some((text("10 | 9 Off Suit"), [7, 0]))
    );
    assert_eq!(
        FileIO::parse_data_from_str("Ace of Spades | Ace of Hearts,1,1,99"),
        Some((text("Ace of Spades | Ace of Hearts"), [1, 1]))
    );
}

#[test]
fn data_does_not_count_a_number_in_the_label() {
    assert_eq!(FileIO::parse_data_from_str("5,6,7"), Some((text("5"), [6, 7])));
    assert_eq!(FileIO::parse_data_from_str("5,6"), None);
    assert_eq!(FileIO::parse_data_from_str(",6,7"), Some((text(""), [6, 7])));
}

#[test]
fn data_needs_two_counts() {
    assert_eq!(FileIO::parse_data_from_str(""), None);
    assert_eq!(FileIO::parse_data_from_str("A | K Suited"), None);
    assert_eq!(FileIO::parse_data_from_str("A | K Suited,12"), None);
    assert_eq!(FileIO::parse_data_from_str("A | K Suited,12,x"), None);
    assert_eq!(FileIO::parse_data_from_str("A | K Suited,,"), None);
}

#[test]
fn data_agrees_with_split_trim_and_parse() {
    let lines = [
        "A | K Suited,12,3",
        " x , 1 , 2 ",
        "a,b,3,c,4,5",
        ",,,",
        "q,+1,-2,3",
        "\u{a0}padded\u{2003},\u{3000}4\u{2028},\u{85}5",
        "no numbers here",
        "trailing,1,2,",
        "9 | 9 Off Suit,4294967295,4294967296,17",
    ];
    for line in lines {
        let mut fields = line.split(",");
        let hand = fields.next().unwrap().trim().to_string();
        let numbers: Vec<u32> = fields.filter_map(|field| field.trim().parse().ok()).collect();
        let expected = if numbers.len() >= 2 { Some((hand, [numbers[0], numbers[1]])) } else { None };
        assert_eq!(FileIO::parse_data_from_str(line), expected);
        let all: Vec<u32> = line.split(",").filter_map(|field| field.trim().parse().ok()).collect();
        let totals = if all.len() >= 2 { Some([all[0], all[1]]) } else { None };
        assert_eq!(FileIO::parse_total_data_from_str(line), totals);
    }
}

#[test]
fn written_line_is_read_back() {
    let labels = ["A | K Suited", "10 | 9 Off Suit", "Two of Clubs | Two of Hearts"];
    let counts = [[0u32, 0u32], [12, 3], [u32::MAX, 1], [1000000, 999999]];
    for label in labels {
        for pair in counts {
            let line = FileIO::record_line(label, &pair);
            assert_eq!(FileIO::parse_data_from_str(&line), Some((text(label), pair)));
        }
    }
    for pair in counts {
        let line = FileIO::array_to_string(&pair);
        assert_eq!(FileIO::parse_total_data_from_str(&line), Some(pair));
    }
}

fn stats_as_pairs(stats: &HandStats) -> Vec<(String, [u32; 2])> {
    (0..stats.len()).map(|i| (stats.label_at(i), stats.counts_at(i))).collect()
}

#[test]
fn records_give_totals_and_stats() {
    let records = vec![text("2000,3"), text("A | K Suited,12,3"), text("7 | 2 Off Suit,9,0"), text("Q | Q Off Suit,4,4")];
    let (stats, totals) = FileIO::read_records(&records).unwrap();
    assert_eq!(totals, [2000, 3]);
    assert_eq!(
        stats_as_pairs(&stats),
        vec![
            (text("A | K Suited"), [12, 3]),
            (text("7 | 2 Off Suit"), [9, 0]),
            (text("Q | Q Off Suit"), [4, 4]),
        ]
    );
}

#[test]
fn later_record_replaces_an_earlier_one_with_the_same_label() {
    let records = vec![text("10,1"), text("A | K Suited,12,3"), text("A | K Suited,1,1")];
    let (stats, _) = FileIO::read_records(&records).unwrap();
    assert_eq!(stats_as_pairs(&stats), vec![(text("A | K Suited"), [1, 1])]);
}

#[test]
fn records_with_totals_alone_give_empty_stats() {
    let (stats, totals) = FileIO::read_records(&vec![text("0,0")]).unwrap();
    assert_eq!(totals, [0, 0]);
    assert_eq!(stats.len(), 0);
}

#[test]
fn no_record_is_an_error() {
    assert_eq!(FileIO::read_records(&Vec::new()).err(), Some(ReadError::NoTotals));
}

#[test]
fn bad_totals_are_an_error() {
    let records = vec![text("2000"), text("A | K Suited,12,3")];
    assert_eq!(FileIO::read_records(&records).err(), Some(ReadError::BadTotals));
}

#[test]
fn bad_record_is_an_error() {
    let records = vec![text("2000,2"), text("A | K Suited,12,3"), text("7 | 2 Off Suit,9"), text("Q | Q Off Suit,4,4")];
    assert_eq!(FileIO::read_records(&records).err(), Some(ReadError::BadRecord));
    let last = vec![text("2000,2"), text("A | K Suited,12,3"), text("")];
    assert_eq!(FileIO::read_records(&last).err(), Some(ReadError::BadRecord));
}

#[test]
fn iterations_are_counted_in_thousands() {
    assert_eq!(iterations_of(0), Some(0));
    assert_eq!(iterations_of(1), Some(1000));
    assert_eq!(iterations_of(250), Some(250000));
    assert_eq!(iterations_of(4294967), Some(4294967000));
    assert_eq!(iterations_of(4294968), None);
    assert_eq!(iterations_of(u32::MAX), None);
}

#[test]
fn totals_add_iterations_and_replace_unique_hands() {
    assert_eq!(updated_totals([0, 0], 1000, 169), Some([1000, 169]));
    assert_eq!(updated_totals([5000, 120], 2000, 169), Some([7000, 169]));
    assert_eq!(updated_totals([5000, 169], 0, 3), Some([5000, 3]));
    assert_eq!(updated_totals([u32::MAX - 1000, 0], 1000, 0), Some([u32::MAX, 0]));
}

#[test]
fn totals_that_do_not_fit_are_refused() {
    assert_eq!(updated_totals([u32::MAX - 999, 0], 1000, 0), None);
    assert_eq!(updated_totals([u32::MAX, 0], 1, 0), None);
    if usize::MAX as u128 > u32::MAX as u128 {
        assert_eq!(updated_totals([0, 0], 1, u32::MAX as usize + 1), None);
    }
    assert_eq!(updated_totals([0, 0], 1, u32::MAX as usize), Some([1, u32::MAX]));
}
