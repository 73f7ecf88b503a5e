use chessament::event::Event;
use chessament::pairing::{choose_bye, compute_pairing, seeding_order, Seeding};
use chessament::player::{Color, Player};
use chessament::round::{GameResult, Pairing, Round};
use chessament::tournament::{Tour, TournamentError};

fn tournament_of(ratings: &[u32], total_rounds: u32) -> Tour {
    let mut t = Tour::new("Open".to_string(), total_rounds);
    for (i, r) in ratings.iter().enumerate() {
        t.add_player(Player::new(format!("P{}", i), *r)).unwrap();
    }
    t
}

fn boards(rd: &Round) -> Vec<(usize, usize)> {
    rd.pairings.iter().map(|p| (p.white, p.black)).collect()
}

fn has_pair(rd: &Round, a: usize, b: usize) -> bool {
    rd.pairings
        .iter()
        .any(|p| (p.white == a && p.black == b) || (p.white == b && p.black == a))
}

#[test]
fn sum() {
    assert_eq!(2 + 2, 4);
}

#[test]
fn first_round_splits_score_group_in_halves() {
    let t = tournament_of(&[1500, 1400, 1300, 1200], 3);
    let rd = compute_pairing(&t).unwrap();
    assert_eq!(rd.pairings.len(), 2);
    assert!(rd.bye.is_none());
    assert!(has_pair(&rd, 0, 2));
    assert!(has_pair(&rd, 1, 3));
    assert!(!has_pair(&rd, 0, 1));
    assert_eq!(boards(&rd), vec![(0, 2), (3, 1)]);
}

#[test]
fn seeding_follows_rating_when_scores_are_equal() {
    let t = tournament_of(&[1200, 1500, 1300, 1500], 3);
    let sd = Seeding::new(&t);
    assert_eq!(seeding_order(&t, &sd), vec![1, 3, 2, 0]);
}

#[test]
fn record_result_outside_current_round_is_refused() {
    let mut t = tournament_of(&[1500, 1400, 1300, 1200], 3);
    assert_eq!(t.record_result(1, 0, GameResult::Draw), Err(TournamentError::InvalidState));
    t.pair_next_round().unwrap();
    assert_eq!(t.record_result(2, 0, GameResult::Draw), Err(TournamentError::InvalidState));
    assert_eq!(t.record_result(0, 0, GameResult::Draw), Err(TournamentError::InvalidState));
    assert_eq!(t.record_result(1, 5, GameResult::Draw), Err(TournamentError::NoSuchPairing));
    assert_eq!(t.record_result(1, 0, GameResult::Draw), Ok(()));
    assert_eq!(t.rounds[0].pairings[0].result, GameResult::Draw);
}

#[test]
fn even_field_gets_half_as_many_boards_and_no_bye() {
    let t = tournament_of(&[2000, 1900, 1800, 1700, 1600, 1500], 5);
    let rd = compute_pairing(&t).unwrap();
    assert_eq!(rd.pairings.len(), 3);
    assert!(rd.bye.is_none());
    assert_eq!(boards(&rd), vec![(0, 3), (4, 1), (2, 5)]);
}

#[test]
fn odd_field_gives_one_bye_to_lowest_seed() {
    let t = tournament_of(&[2000, 1900, 1800, 1700, 1600], 5);
    let rd = compute_pairing(&t).unwrap();
    assert_eq!(rd.pairings.len(), 2);
    assert_eq!(rd.bye, Some(4));
    let sd = Seeding::new(&t);
    assert_eq!(choose_bye(&t, &sd), 4);
}

#[test]
fn bye_is_not_given_twice() {
    let mut t = tournament_of(&[2000, 1900, 1800], 3);
    t.pair_next_round().unwrap();
    assert_eq!(t.rounds[0].bye, Some(2));
    t.record_result(1, 0, GameResult::WhiteWins).unwrap();
    t.pair_next_round().unwrap();
    let bye = t.rounds[1].bye.unwrap();
    assert_ne!(bye, 2);
}

#[test]
fn pairing_is_deterministic() {
    let mut t = tournament_of(&[1500, 1400, 1300, 1200, 1100, 1000], 4);
    t.pair_next_round().unwrap();
    for k in 0..3 {
        t.record_result(1, k, GameResult::WhiteWins).unwrap();
    }
    let a = compute_pairing(&t).unwrap();
    let b = compute_pairing(&t).unwrap();
    assert_eq!(boards(&a), boards(&b));
    assert_eq!(a.bye, b.bye);
}

#[test]
fn second_round_avoids_earlier_opponents() {
    let mut t = tournament_of(&[1500, 1400, 1300, 1200], 3);
    t.pair_next_round().unwrap();
    t.record_result(1, 0, GameResult::WhiteWins).unwrap();
    t.record_result(1, 1, GameResult::Draw).unwrap();
    t.pair_next_round().unwrap();
    let r2 = &t.rounds[1];
    assert_eq!(r2.pairings.len(), 2);
    assert!(!has_pair(r2, 0, 2));
    assert!(!has_pair(r2, 1, 3));
}

#[test]
fn no_third_colour_in_a_row() {
    let mut t = tournament_of(&[1500, 1400, 1300, 1200], 3);
    for round in 1..=2u32 {
        t.pair_next_round().unwrap();
        let n = t.rounds[(round - 1) as usize].pairings.len();
        for k in 0..n {
            t.record_result(round, k, GameResult::Draw).unwrap();
        }
    }
    match t.pair_next_round() {
        Ok(()) => {
            for p in 0..4usize {
                let mut colours: Vec<Color> = Vec::new();
                for rd in t.rounds.iter() {
                    for b in rd.pairings.iter() {
                        if b.white == p {
                            colours.push(Color::White);
                        } else if b.black == p {
                            colours.push(Color::Black);
                        }
                    }
                }
                let n = colours.len();
                assert!(!(n >= 3 && colours[n - 1] == colours[n - 2] && colours[n - 2] == colours[n - 3]));
            }
        }
        Err(e) => assert_eq!(e, TournamentError::PairingInfeasible),
    }
}

#[test]
fn two_players_cannot_meet_twice() {
    let mut t = tournament_of(&[1500, 1400], 2);
    t.pair_next_round().unwrap();
    t.record_result(1, 0, GameResult::Draw).unwrap();
    assert_eq!(t.pair_next_round(), Err(TournamentError::PairingInfeasible));
    assert_eq!(t.rounds.len(), 1);
}

#[test]
fn pairing_mid_round_or_after_the_end_is_refused() {
    let mut t = tournament_of(&[1500, 1400], 1);
    t.pair_next_round().unwrap();
    assert_eq!(t.pair_next_round(), Err(TournamentError::InvalidState));
    t.record_result(1, 0, GameResult::BlackWins).unwrap();
    assert!(t.is_complete());
    assert_eq!(t.pair_next_round(), Err(TournamentError::InvalidState));
}

#[test]
fn standings_rank_by_score_then_buchholz() {
    let mut t = tournament_of(&[1500, 1400, 1300, 1200], 2);
    t.pair_next_round().unwrap();
    // boards: 0-2, 3-1
    t.record_result(1, 0, GameResult::WhiteWins).unwrap();
    t.record_result(1, 1, GameResult::Draw).unwrap();
    let s = t.standings();
    let order: Vec<usize> = s.iter().map(|x| x.player).collect();
    assert_eq!(order, vec![0, 1, 3, 2]);
    assert_eq!(s[0].score, 2);
    assert_eq!(s[1].score, 1);
    assert_eq!(s[3].score, 0);
    // player 0 met player 2 (0 points); player 1 met player 3 (1 point)
    assert_eq!(s[0].buchholz, 0);
    assert_eq!(s[1].buchholz, 1);
    assert_eq!(s[1].direct_encounter, 1);
    assert_eq!(s[2].direct_encounter, 1);
    for i in 1..s.len() {
        assert!(s[i - 1].score >= s[i].score);
    }
}

#[test]
fn bye_counts_fixed_buchholz() {
    let mut t = tournament_of(&[1500, 1400, 1300], 2);
    t.pair_next_round().unwrap();
    t.record_result(1, 0, GameResult::BlackWins).unwrap();
    let s = t.standings();
    let bye_line = s.iter().find(|x| x.player == 2).unwrap();
    assert_eq!(bye_line.score, 2);
    assert_eq!(bye_line.buchholz, 1);
    assert_eq!(bye_line.direct_encounter, 0);
}

#[test]
fn players_are_counted_and_numbered() {
    let mut t = tournament_of(&[1500, 0, 1300], 2);
    assert_eq!(t.number_of_players(), 3);
    assert_eq!(t.number_of_rated_players(), 2);
    assert_eq!(t.players[2].starting_rank, 3);
    let removed = t.remove_player(0).unwrap();
    assert_eq!(removed.rating, 1500);
    assert_eq!(t.players[0].starting_rank, 1);
    assert_eq!(t.players[1].starting_rank, 2);
    assert_eq!(t.players[1].rating, 1300);
    assert!(matches!(t.remove_player(7), Err(TournamentError::NoSuchPlayer)));
}

#[test]
fn removing_players_after_start_is_refused() {
    let mut t = tournament_of(&[1500, 1400], 2);
    t.pair_next_round().unwrap();
    assert!(matches!(t.remove_player(0), Err(TournamentError::InvalidState)));
    assert_eq!(t.number_of_players(), 2);
}

#[test]
fn total_rounds_cannot_drop_below_rounds_played() {
    let mut t = tournament_of(&[1500, 1400], 2);
    t.pair_next_round().unwrap();
    assert_eq!(t.set_total_rounds(0), Err(TournamentError::InvalidState));
    assert_eq!(t.set_total_rounds(5), Ok(()));
    assert_eq!(t.total_rounds, 5);
    assert_eq!(t.current_round_number(), 1);
}

#[test]
fn event_holds_tournaments_by_index() {
    let mut e = Event::new();
    assert_eq!(e.number_of_tournaments(), 0);
    assert_eq!(e.create_tournament(), Ok(0));
    assert_eq!(e.open(tournament_of(&[1500], 1)), Ok(1));
    assert_eq!(e.number_of_tournaments(), 2);
    assert!(e.get_tournament(-1).is_none());
    assert!(e.get_tournament(2).is_none());
    assert_eq!(e.get_tournament(1).unwrap().number_of_players(), 1);
    assert_eq!(e.get_tournament(0).unwrap().total_rounds, 0);
}

#[test]
fn result_points_by_colour() {
    let p = Pairing { white: 0, black: 1, result: GameResult::WhiteWinsByForfeit };
    assert_eq!(chessament::round::points_for(p.result, Color::White), 2);
    assert_eq!(chessament::round::points_for(p.result, Color::Black), 0);
    assert_eq!(chessament::round::points_for(GameResult::Draw, Color::Black), 1);
}

use chessament::codec::{read_line_exec, write_line, Column, Field, FormatError};
use chessament::ratinglist::{CatalogError, RatingListRust, RatingRecord};
use chessament::report::{read_player_line, read_report, split_lines, write_player_line, ReportError};

fn text_of(fs: &[Field]) -> Vec<Vec<u8>> {
    fs.iter()
        .map(|f| match f {
            Field::Text(t) => t.clone(),
            Field::Num(n) => n.to_string().into_bytes(),
        })
        .collect()
}

#[test]
fn line_fields_are_padded_to_their_columns() {
    let cols = vec![
        Column { width: 3, numeric: false },
        Column { width: 4, numeric: true },
        Column { width: 5, numeric: false },
    ];
    let fields = vec![Field::Text(b"001".to_vec()), Field::Num(7), Field::Text(b"Ann".to_vec())];
    let line = write_line(&fields, &cols).unwrap();
    assert_eq!(line, b"001    7 Ann  ".to_vec());
    let back = read_line_exec(&line, &cols).unwrap();
    assert_eq!(text_of(&back), text_of(&fields));
}

#[test]
fn line_codec_errors() {
    let cols = vec![Column { width: 2, numeric: true }];
    assert!(matches!(write_line(&vec![Field::Num(123)], &cols), Err(FormatError::DoesNotFit)));
    assert!(matches!(write_line(&vec![Field::Text(b"x".to_vec())], &cols), Err(FormatError::DoesNotFit)));
    assert!(matches!(read_line_exec(&b"1".to_vec(), &cols), Err(FormatError::TooShort)));
    assert!(matches!(read_line_exec(&b"1x".to_vec(), &cols), Err(FormatError::BadNumber)));
    match read_line_exec(&b" 9".to_vec(), &cols) {
        Ok(fs) => assert!(matches!(fs[0], Field::Num(9))),
        Err(_) => panic!("expected a number"),
    }
}

const LINE_A: &str = "001    1 m GM Carlsen, Magnus                   2830 NOR     1503014 1990/11/30  1.0    1     2 w 1";
const LINE_B: &str = "001    2 m    Doe, John                         1200 USA           0 2001/01/01  0.0    2     1 b 0";

#[test]
fn player_line_round_trip() {
    let line = LINE_A.as_bytes().to_vec();
    let fs = read_player_line(&line).unwrap();
    assert_eq!(fs.len(), 14);
    assert!(matches!(fs[1], Field::Num(1)));
    assert!(matches!(fs[4], Field::Num(2830)));
    assert!(matches!(fs[6], Field::Num(1503014)));
    assert!(matches!(fs[11], Field::Num(2)));
    let again = write_player_line(&fs).unwrap();
    assert_eq!(again, line);
    assert_eq!(text_of(&read_player_line(&again).unwrap()), text_of(&fs));
}

#[test]
fn report_reads_players_and_rounds() {
    let text = format!("012 Test Open\n062 2\n{}\n{}\n", LINE_A, LINE_B).into_bytes();
    let rep = read_report(&text).unwrap();
    assert_eq!(rep.players.len(), 2);
    assert_eq!(rep.rounds, 1);
    assert_eq!(split_lines(&b"a\nb".to_vec()), vec![b"a".to_vec(), b"b".to_vec()]);
}

#[test]
fn report_errors() {
    let dup = format!("{}\n{}\n", LINE_A, LINE_A).into_bytes();
    assert_eq!(read_report(&dup).err(), Some(ReportError::DuplicateRank(1)));
    let count = format!("062 3\n{}\n{}\n", LINE_A, LINE_B).into_bytes();
    assert_eq!(read_report(&count).err(), Some(ReportError::CountMismatch(0)));
    let short = b"001    1 m".to_vec();
    assert_eq!(read_report(&short).err(), Some(ReportError::Format(0, FormatError::TooShort)));
}

fn record(id: u64, rating: u32) -> RatingRecord {
    RatingRecord { id, rating, title: None, federation: "NOR".to_string() }
}

#[test]
fn rating_list_fills_only_unset_ratings() {
    let list = RatingListRust::from_records(vec![record(11, 2100), record(12, 1900)], String::new(), 5).unwrap();
    assert_eq!(list.lookup(12).unwrap().rating, 1900);
    assert!(list.lookup(13).is_none());
    let mut t = Tour::new("Open".to_string(), 3);
    let mut a = Player::new("A".to_string(), 0);
    a.player_id = 11;
    let mut b = Player::new("B".to_string(), 1500);
    b.player_id = 12;
    t.add_player(a).unwrap();
    t.add_player(b).unwrap();
    t.add_player(Player::new("C".to_string(), 0)).unwrap();
    t.enrich_ratings(&list);
    assert_eq!(t.players[0].rating, 2100);
    assert_eq!(t.players[1].rating, 1500);
    assert_eq!(t.players[2].rating, 0);
}

#[test]
fn rating_list_refuses_duplicates_and_keeps_old_list_on_failed_fetch() {
    assert!(matches!(
        RatingListRust::from_records(vec![record(1, 1), record(1, 2)], String::new(), 0),
        Err(CatalogError::DuplicateId)
    ));
    let mut list = RatingListRust::from_records(vec![record(1, 1000)], String::new(), 1).unwrap();
    assert_eq!(list.apply_fetch(Err(CatalogError::FetchError)), Err(CatalogError::FetchError));
    assert_eq!(list.last_updated, 1);
    let fresh = RatingListRust::from_records(vec![record(2, 2000)], String::new(), 9).unwrap();
    assert_eq!(list.apply_fetch(Ok(fresh)), Ok(()));
    assert_eq!(list.last_updated, 9);
    assert!(list.lookup(1).is_none());
    assert_eq!(list.len(), 1);
}

use chessament::import::ImportError;
use chessament::player::Title;

#[test]
fn report_becomes_a_tournament() {
    let text = format!("{}\n{}\n", LINE_A, LINE_B).into_bytes();
    let rep = read_report(&text).unwrap();
    let t = Tour::from_report(&rep, "Open".to_string()).unwrap();
    assert_eq!(t.number_of_players(), 2);
    assert_eq!(t.players[0].name, "Carlsen, Magnus");
    assert_eq!(t.players[0].title, Some(Title::GM));
    assert_eq!(t.players[0].rating, 2830);
    assert_eq!(t.players[0].player_id, 1503014);
    assert_eq!(t.players[0].federation, "NOR");
    assert_eq!(t.players[1].title, None);
    assert_eq!(t.total_rounds, 1);
    assert_eq!(t.rounds.len(), 1);
    assert_eq!(t.rounds[0].pairings.len(), 1);
    assert_eq!(t.rounds[0].pairings[0].white, 0);
    assert_eq!(t.rounds[0].pairings[0].black, 1);
    assert_eq!(t.rounds[0].pairings[0].result, GameResult::WhiteWins);
    let s = t.standings();
    assert_eq!(s[0].player, 0);
    assert_eq!(s[0].score, 2);
}

#[test]
fn report_with_ranks_out_of_order_is_refused() {
    let text = format!("{}\n{}\n", LINE_B, LINE_A).into_bytes();
    let rep = read_report(&text).unwrap();
    assert_eq!(Tour::from_report(&rep, String::new()).err(), Some(ImportError::BadRecord(0)));
}

#[test]
fn exported_report_reads_back_as_the_same_tournament() {
    let mut t = tour_with_history();
    t.players[0].title = Some(Title::IM);
    let lines = t.to_report().unwrap();
    assert_eq!(lines.len(), 5);
    let mut text: Vec<u8> = Vec::new();
    for l in lines.iter() {
        text.extend_from_slice(l);
        text.push(b'\n');
    }
    let rep = read_report(&text).unwrap();
    let back = Tour::from_report(&rep, "Open".to_string()).unwrap();
    assert_eq!(back.players.len(), 5);
    for i in 0..5 {
        assert_eq!(back.players[i].name, t.players[i].name);
        assert_eq!(back.players[i].rating, t.players[i].rating);
    }
    assert_eq!(back.players[0].title, Some(Title::IM));
    assert_eq!(back.rounds.len(), 1);
    assert_eq!(boards(&back.rounds[0]), boards(&t.rounds[0]));
    assert_eq!(back.rounds[0].bye, t.rounds[0].bye);
    for k in 0..back.rounds[0].pairings.len() {
        assert_eq!(back.rounds[0].pairings[k].result, t.rounds[0].pairings[k].result);
    }
    let again = back.to_report().unwrap();
    assert_eq!(again, lines);
}

fn tour_with_history() -> Tour {
    let mut t = tournament_of(&[1500, 1400, 1300, 1200, 1100], 3);
    t.pair_next_round().unwrap();
    t.record_result(1, 0, GameResult::WhiteWins).unwrap();
    t.record_result(1, 1, GameResult::Draw).unwrap();
    t
}

#[test]
fn exported_line_has_fixed_columns() {
    let t = tour_with_history();
    let lines = t.to_report().unwrap();
    let first = String::from_utf8(lines[0].clone()).unwrap();
    assert_eq!(&first[0..8], "001    1");
    assert_eq!(&first[14..16], "P0");
    assert_eq!(&first[48..52], "1500");
    assert_eq!(&first[80..84], " 1.0");
    assert_eq!(&first[89..99], "     3 w 1");
    let bye_line = String::from_utf8(lines[4].clone()).unwrap();
    assert_eq!(&bye_line[89..99], "     0 - +");
}

use chessament::ratinglist::RatingList;

#[test]
fn rating_list_payload_is_parsed_line_by_line() {
    let payload = b"    1503014 2830 GM  NOR\n\n     123456 1850     USA\n".to_vec();
    let list = RatingList::import_list(&payload, "http://example.org/list".to_string(), 42).unwrap();
    assert_eq!(list.len(), 2);
    let c = list.lookup(1503014).unwrap();
    assert_eq!(c.rating, 2830);
    assert_eq!(c.title, Some(Title::GM));
    assert_eq!(c.federation, "NOR");
    let d = list.lookup(123456).unwrap();
    assert_eq!(d.title, None);
    assert_eq!(list.last_updated, 42);
}

#[test]
fn rating_list_payload_errors() {
    let bad = b"    1503014 2830 GM  NOR\n    15x3014 2830 GM  NOR\n".to_vec();
    assert!(matches!(RatingList::import_list(&bad, String::new(), 0), Err(CatalogError::ParseError(1))));
    let short = b"  12".to_vec();
    assert!(matches!(RatingList::import_list(&short, String::new(), 0), Err(CatalogError::ParseError(0))));
    let dup = b"          7 2000         \n          7 2100         \n".to_vec();
    assert!(matches!(RatingList::import_list(&dup, String::new(), 0), Err(CatalogError::DuplicateId)));
}

#[test]
fn adding_players_after_start_is_refused() {
    let mut t = tournament_of(&[1500, 1400], 2);
    t.pair_next_round().unwrap();
    assert_eq!(t.add_player(Player::new("Late".to_string(), 1000)), Err(TournamentError::InvalidState));
    assert_eq!(t.number_of_players(), 2);
}

#[test]
fn place_follows_the_standings() {
    let t = tour_with_history();
    // round 1: 0-2 white wins, 3-1 draw, 4 has the bye
    let s = t.standings();
    for (i, line) in s.iter().enumerate() {
        assert_eq!(t.place(line.player), (i + 1) as u64);
    }
    let lines = t.to_report().unwrap();
    let bye_line = String::from_utf8(lines[4].clone()).unwrap();
    assert_eq!(&bye_line[80..84], " 1.0");
    assert_eq!(&bye_line[85..89], &format!("{:>4}", t.place(4)));
    assert_eq!(t.place(2), 5);
}

#[test]
fn long_names_do_not_fit_a_report() {
    let mut t = Tour::new("Open".to_string(), 1);
    t.add_player(Player::new("A name far longer than thirty-three bytes".to_string(), 1500)).unwrap();
    assert_eq!(t.to_report(), Err(FormatError::DoesNotFit));
}

#[test]
fn report_with_missing_count_value_is_refused() {
    let text = format!("{}\n062 x\n", LINE_A).into_bytes();
    assert_eq!(read_report(&text).err(), Some(ReportError::CountMismatch(1)));
}

#[test]
fn imported_round_must_cover_every_player() {
    let text = format!("{}\n{}\n", LINE_A, &LINE_B[..89]).into_bytes();
    let rep = read_report(&text).unwrap();
    // the white player's line alone defines the board
    assert_eq!(Tour::from_report(&rep, String::new()).unwrap().rounds[0].pairings.len(), 1);
    let lone = format!("{}\n{}\n{}\n", LINE_A, LINE_B, "001    3 m    Third                             1000 USA           0 2001/01/01  0.0    3").into_bytes();
    let rep = read_report(&lone).unwrap();
    assert_eq!(Tour::from_report(&rep, String::new()).err(), Some(ImportError::MissingPlayer(2)));
}

#[test]
fn imported_rematch_is_refused() {
    let a = format!("{}     2 b 0", LINE_A);
    let b = format!("{}     1 w 1", LINE_B);
    let text = format!("{}\n{}\n", a, b).into_bytes();
    let rep = read_report(&text).unwrap();
    assert_eq!(rep.rounds, 2);
    assert_eq!(Tour::from_report(&rep, String::new()).err(), Some(ImportError::Rematch(1)));
}
